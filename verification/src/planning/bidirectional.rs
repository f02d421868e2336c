//! Bidirectional GOAP search: the forward frontier grows from the beliefs
//! that hold now, the backward frontier from the goal; where they meet a
//! plan is found. Costs are not kept here: the caller sums the costs of the
//! plans of the meetings and picks the cheapest.

use vstd::prelude::*;

use crate::planning::belief::BeliefIdSet;
use crate::planning::planner::{covers, produces_any, regress, runs_in_order, used_set, ActionSpec, GoapPlanner};

verus! {

/// A frontier entry: a set of beliefs and the plan (action indices) that
/// led to it.
pub type FrontierEntry = (BeliefIdSet, Vec<usize>);

/// The views of frontier entries.
pub open spec fn entries_view(v: Seq<FrontierEntry>) -> Seq<(Set<Seq<char>>, Seq<usize>)> {
    v.map_values(|e: FrontierEntry| (e.0@, e.1@))
}

/// Every belief named by some action's preconditions or effects.
pub open spec fn mentioned(acts: Seq<ActionSpec>) -> Set<Seq<char>> {
    Set::new(|x: Seq<char>| exists|i: int| 0 <= i < acts.len()
        && (#[trigger] acts[i].effects@.contains(x) || acts[i].preconditions@.contains(x)))
}

/// New forward entries, from entry `e` and action `idx` on (in row order):
/// an unused action whose preconditions hold in the entry's beliefs or now
/// extends the entry, and becomes used.
pub open spec fn forward_new(
    acts: Seq<ActionSpec>,
    facts: Set<Seq<char>>,
    entries: Seq<(Set<Seq<char>>, Seq<usize>)>,
    used: Set<usize>,
    e: int,
    idx: int,
    acc: Seq<(Set<Seq<char>>, Seq<usize>)>,
) -> (Seq<(Set<Seq<char>>, Seq<usize>)>, Set<usize>)
    decreases entries.len() - e, acts.len() - idx,
{
    if e < 0 || idx < 0 || e >= entries.len() {
        (acc, used)
    } else if idx >= acts.len() {
        forward_new(acts, facts, entries, used, e + 1, 0, acc)
    } else if !used.contains(idx as usize) && acts[idx].preconditions@.subset_of(entries[e].0.union(facts)) {
        forward_new(
            acts, facts, entries, used.insert(idx as usize), e, idx + 1,
            acc.push((entries[e].0.union(acts[idx].effects@), entries[e].1.push(idx as usize))),
        )
    } else {
        forward_new(acts, facts, entries, used, e, idx + 1, acc)
    }
}

/// New backward entries, from entry `e` and action `idx` on: an unused
/// action producing a needed belief regresses the entry, and becomes used.
pub open spec fn backward_new(
    acts: Seq<ActionSpec>,
    facts: Set<Seq<char>>,
    entries: Seq<(Set<Seq<char>>, Seq<usize>)>,
    used: Set<usize>,
    e: int,
    idx: int,
    acc: Seq<(Set<Seq<char>>, Seq<usize>)>,
) -> (Seq<(Set<Seq<char>>, Seq<usize>)>, Set<usize>)
    decreases entries.len() - e, acts.len() - idx,
{
    if e < 0 || idx < 0 || e >= entries.len() {
        (acc, used)
    } else if idx >= acts.len() {
        backward_new(acts, facts, entries, used, e + 1, 0, acc)
    } else if !used.contains(idx as usize) && produces_any(acts[idx], entries[e].0) {
        backward_new(
            acts, facts, entries, used.insert(idx as usize), e, idx + 1,
            acc.push((regress(acts[idx], entries[e].0, facts), entries[e].1.push(idx as usize))),
        )
    } else {
        backward_new(acts, facts, entries, used, e, idx + 1, acc)
    }
}

/// The meetings from backward entry `b` and forward entry `f` on: for each
/// backward entry, first itself when its needs hold now (`None`), then each
/// forward entry whose beliefs include its needs.
pub open spec fn meetings_from(
    facts: Set<Seq<char>>,
    fwd: Seq<(Set<Seq<char>>, Seq<usize>)>,
    bwd: Seq<(Set<Seq<char>>, Seq<usize>)>,
    b: int,
    f: int,
) -> Seq<(Option<usize>, usize)>
    decreases bwd.len() - b, fwd.len() + 1 - f,
{
    if b < 0 || b >= bwd.len() || f < -1 {
        Seq::empty()
    } else if f == -1 {
        if bwd[b].0.subset_of(facts) {
            seq![(None::<usize>, b as usize)] + meetings_from(facts, fwd, bwd, b, 0)
        } else {
            meetings_from(facts, fwd, bwd, b, 0)
        }
    } else if f >= fwd.len() {
        meetings_from(facts, fwd, bwd, b + 1, -1)
    } else if bwd[b].0.subset_of(fwd[f].0) {
        seq![(Some(f as usize), b as usize)] + meetings_from(facts, fwd, bwd, b, f + 1)
    } else {
        meetings_from(facts, fwd, bwd, b, f + 1)
    }
}

/// The beliefs produced by the actions of `plan`.
pub open spec fn effects_of(acts: Seq<ActionSpec>, plan: Seq<usize>) -> Set<Seq<char>> {
    Set::new(|x: Seq<char>| exists|j: int| 0 <= j < plan.len() && #[trigger] acts[plan[j] as int].effects@.contains(x))
}

/// A forward entry: its plan runs in order from now, and its beliefs hold
/// now or are produced by the plan.
pub open spec fn forward_sound(acts: Seq<ActionSpec>, facts: Set<Seq<char>>, en: (Set<Seq<char>>, Seq<usize>)) -> bool {
    &&& runs_in_order(acts, facts, en.1)
    &&& en.0.subset_of(facts.union(effects_of(acts, en.1)))
    &&& forall|j: int| 0 <= j < en.1.len() ==> en.1[j] < acts.len()
}

/// A backward entry: once its needs hold too, its plan, run from its end,
/// runs in order and achieves the goal.
pub open spec fn backward_sound(acts: Seq<ActionSpec>, facts: Set<Seq<char>>, goal: Set<Seq<char>>, en: (Set<Seq<char>>, Seq<usize>)) -> bool {
    &&& runs_in_order(acts, facts.union(en.0), en.1.reverse())
    &&& covers(acts, facts.union(en.0), en.1.reverse(), goal)
    &&& forall|j: int| 0 <= j < en.1.len() ==> en.1[j] < acts.len()
}

/// The plan of a meeting: the forward plan, then the backward plan from its
/// end.
pub open spec fn meeting_plan(
    fwd: Seq<(Set<Seq<char>>, Seq<usize>)>,
    bwd: Seq<(Set<Seq<char>>, Seq<usize>)>,
    m: (Option<usize>, usize),
) -> Seq<usize> {
    match m.0 {
        Some(f) => fwd[f as int].1 + bwd[m.1 as int].1.reverse(),
        None => bwd[m.1 as int].1.reverse(),
    }
}

/// Both frontiers of a bidirectional search.
pub struct BidirectionalFrontier {
    pub forward: Vec<FrontierEntry>,
    pub backward: Vec<FrontierEntry>,
    pub forward_used: Vec<bool>,
    pub backward_used: Vec<bool>,
    pub goal: BeliefIdSet,
}

impl BidirectionalFrontier {
    /// Every entry is sound and the used flags cover all actions.
    pub open spec fn sound(&self, acts: Seq<ActionSpec>, facts: Set<Seq<char>>) -> bool {
        &&& self.forward_used@.len() == acts.len()
        &&& self.backward_used@.len() == acts.len()
        &&& forall|i: int| 0 <= i < self.forward@.len() ==> forward_sound(acts, facts, #[trigger] entries_view(self.forward@)[i])
        &&& forall|i: int| 0 <= i < self.backward@.len() ==> backward_sound(acts, facts, self.goal@, #[trigger] entries_view(self.backward@)[i])
    }
}

pub(crate) fn copy_plan(p: &Vec<usize>) -> (r: Vec<usize>)
    ensures
        r@ == p@,
{
    let mut r: Vec<usize> = Vec::new();
    let n = p.len();
    let mut i: usize = 0;
    while i < n
        invariant
            n == p@.len(),
            0 <= i <= n,
            r@ == p@.take(i as int),
        decreases n - i,
    {
        r.push(p[i]);
        proof {
            assert(p@.take(i + 1) =~= p@.take(i as int).push(p@[i as int]));
        }
        i += 1;
    }
    proof {
        assert(p@.take(n as int) =~= p@);
    }
    r
}

proof fn lemma_forward_step_sound(acts: Seq<ActionSpec>, facts: Set<Seq<char>>, en: (Set<Seq<char>>, Seq<usize>), idx: usize)
    requires
        forward_sound(acts, facts, en),
        idx < acts.len(),
        acts[idx as int].preconditions@.subset_of(en.0.union(facts)),
    ensures
        forward_sound(acts, facts, (en.0.union(acts[idx as int].effects@), en.1.push(idx))),
{
    let p = en.1;
    let q = p.push(idx);
    assert forall|i: int, x: Seq<char>| 0 <= i < q.len() && #[trigger] acts[q[i] as int].preconditions@.contains(x)
        implies facts.contains(x) || exists|j: int| 0 <= j < i && acts[q[j] as int].effects@.contains(x) by {
        if i < p.len() {
            assert(q[i] == p[i]);
            if !facts.contains(x) {
                let j = choose|j: int| 0 <= j < i && acts[p[j] as int].effects@.contains(x);
                assert(q[j] == p[j]);
            }
        } else {
            if !facts.contains(x) {
                assert(en.0.contains(x));
                assert(effects_of(acts, p).contains(x));
                let j = choose|j: int| 0 <= j < p.len() && #[trigger] acts[p[j] as int].effects@.contains(x);
                assert(q[j] == p[j]);
            }
        }
    }
    assert forall|x: Seq<char>| en.0.union(acts[idx as int].effects@).contains(x) implies facts.union(effects_of(acts, q)).contains(x) by {
        if en.0.contains(x) && !facts.contains(x) {
            assert(effects_of(acts, p).contains(x));
            let j = choose|j: int| 0 <= j < p.len() && #[trigger] acts[p[j] as int].effects@.contains(x);
            assert(q[j] == p[j]);
            assert(effects_of(acts, q).contains(x));
        } else if !facts.contains(x) {
            assert(acts[q[p.len() as int] as int].effects@.contains(x));
            assert(effects_of(acts, q).contains(x));
        }
    }
}

pub(crate) proof fn lemma_backward_step_sound(
    acts: Seq<ActionSpec>,
    facts: Set<Seq<char>>,
    goal: Set<Seq<char>>,
    en: (Set<Seq<char>>, Seq<usize>),
    idx: usize,
)
    requires
        backward_sound(acts, facts, goal, en),
        idx < acts.len(),
    ensures
        backward_sound(acts, facts, goal, (regress(acts[idx as int], en.0, facts), en.1.push(idx))),
{
    let a = acts[idx as int];
    let n2 = regress(a, en.0, facts);
    let rb = en.1.reverse();
    let rq = en.1.push(idx).reverse();
    assert(rq =~= seq![idx] + rb);
    let base = facts.union(en.0);
    let base2 = facts.union(n2);
    assert forall|i: int, x: Seq<char>| 0 <= i < rq.len() && #[trigger] acts[rq[i] as int].preconditions@.contains(x)
        implies base2.contains(x) || exists|j: int| 0 <= j < i && acts[rq[j] as int].effects@.contains(x) by {
        if i == 0 {
            assert(rq[0] == idx);
        } else {
            assert(rq[i] == rb[i - 1]);
            if !base2.contains(x) {
                if base.contains(x) {
                    assert(en.0.contains(x));
                    assert(a.effects@.contains(x));
                    assert(rq[0] == idx);
                } else {
                    let j = choose|j: int| 0 <= j < i - 1 && acts[rb[j] as int].effects@.contains(x);
                    assert(rq[j + 1] == rb[j]);
                }
            }
        }
    }
    assert forall|x: Seq<char>| #[trigger] goal.contains(x) implies base2.contains(x)
        || exists|j: int| 0 <= j < rq.len() && acts[rq[j] as int].effects@.contains(x) by {
        if !base2.contains(x) {
            if base.contains(x) {
                assert(en.0.contains(x));
                assert(a.effects@.contains(x));
                assert(rq[0] == idx);
            } else {
                let j = choose|j: int| 0 <= j < rb.len() && acts[rb[j] as int].effects@.contains(x);
                assert(rq[j + 1] == rb[j]);
            }
        }
    }
    assert forall|j: int| 0 <= j < en.1.push(idx).len() implies en.1.push(idx)[j] < acts.len() by {
        if j < en.1.len() {
            assert(en.1.push(idx)[j] == en.1[j]);
        }
    }
}

/// A plan from a meeting of sound entries runs in order from now and
/// produces every goal belief that does not hold now.
pub proof fn lemma_meeting_plan_sound(
    acts: Seq<ActionSpec>,
    facts: Set<Seq<char>>,
    goal: Set<Seq<char>>,
    fen: Option<(Set<Seq<char>>, Seq<usize>)>,
    ben: (Set<Seq<char>>, Seq<usize>),
)
    requires
        backward_sound(acts, facts, goal, ben),
        match fen {
            Some(f) => forward_sound(acts, facts, f) && ben.0.subset_of(f.0),
            None => ben.0.subset_of(facts),
        },
    ensures
        ({
            let plan = match fen {
                Some(f) => f.1 + ben.1.reverse(),
                None => ben.1.reverse(),
            };
            &&& runs_in_order(acts, facts, plan)
            &&& covers(acts, facts, plan, goal)
        }),
{
    let rb = ben.1.reverse();
    let base = facts.union(ben.0);
    match fen {
        None => {
            assert(base =~= facts);
        },
        Some(f) => {
            let fp = f.1;
            let plan = fp + rb;
            let k = fp.len() as int;
            assert forall|i: int, x: Seq<char>| 0 <= i < plan.len() && #[trigger] acts[plan[i] as int].preconditions@.contains(x)
                implies facts.contains(x) || exists|j: int| 0 <= j < i && acts[plan[j] as int].effects@.contains(x) by {
                if i < k {
                    assert(plan[i] == fp[i]);
                    if !facts.contains(x) {
                        let j = choose|j: int| 0 <= j < i && acts[fp[j] as int].effects@.contains(x);
                        assert(plan[j] == fp[j]);
                    }
                } else {
                    assert(plan[i] == rb[i - k]);
                    if !facts.contains(x) {
                        if base.contains(x) {
                            assert(f.0.contains(x));
                            assert(effects_of(acts, fp).contains(x));
                            let j = choose|j: int| 0 <= j < fp.len() && #[trigger] acts[fp[j] as int].effects@.contains(x);
                            assert(plan[j] == fp[j]);
                        } else {
                            let j = choose|j: int| 0 <= j < i - k && acts[rb[j] as int].effects@.contains(x);
                            assert(plan[j + k] == rb[j]);
                        }
                    }
                }
            }
            assert forall|x: Seq<char>| #[trigger] goal.contains(x) implies facts.contains(x)
                || exists|j: int| 0 <= j < plan.len() && acts[plan[j] as int].effects@.contains(x) by {
                if !facts.contains(x) {
                    if base.contains(x) {
                        assert(f.0.contains(x));
                        assert(effects_of(acts, fp).contains(x));
                        let j = choose|j: int| 0 <= j < fp.len() && #[trigger] acts[fp[j] as int].effects@.contains(x);
                        assert(plan[j] == fp[j]);
                    } else {
                        let j = choose|j: int| 0 <= j < rb.len() && acts[rb[j] as int].effects@.contains(x);
                        assert(plan[j + k] == rb[j]);
                    }
                }
            }
        },
    }
}


/// Entry `en` extends entry `e3` of `entries` by action `a`, which is
/// enabled there: its beliefs and effects, its plan followed by `a`.
pub open spec fn extends_by(
    en: (Set<Seq<char>>, Seq<usize>),
    entries: Seq<(Set<Seq<char>>, Seq<usize>)>,
    e3: int,
    acts: Seq<ActionSpec>,
    facts: Set<Seq<char>>,
    a: int,
) -> bool {
    &&& 0 <= e3 < entries.len()
    &&& en == (entries[e3].0.union(acts[a].effects@), entries[e3].1.push(a as usize))
    &&& acts[a].preconditions@.subset_of(entries[e3].0.union(facts))
}

proof fn lemma_forward_new_prefix(
    acts: Seq<ActionSpec>,
    facts: Set<Seq<char>>,
    entries: Seq<(Set<Seq<char>>, Seq<usize>)>,
    used: Set<usize>,
    e: int,
    idx: int,
    acc: Seq<(Set<Seq<char>>, Seq<usize>)>,
)
    ensures
        ({
            let r = forward_new(acts, facts, entries, used, e, idx, acc);
            &&& acc.len() <= r.0.len()
            &&& forall|k: int| 0 <= k < acc.len() ==> r.0[k] == acc[k]
            &&& used.subset_of(r.1)
        }),
    decreases entries.len() - e, acts.len() - idx,
{
    if e < 0 || idx < 0 || e >= entries.len() {
    } else if idx >= acts.len() {
        lemma_forward_new_prefix(acts, facts, entries, used, e + 1, 0, acc);
    } else if !used.contains(idx as usize) && acts[idx].preconditions@.subset_of(entries[e].0.union(facts)) {
        let acc2 = acc.push((entries[e].0.union(acts[idx].effects@), entries[e].1.push(idx as usize)));
        lemma_forward_new_prefix(acts, facts, entries, used.insert(idx as usize), e, idx + 1, acc2);
        let r = forward_new(acts, facts, entries, used, e, idx, acc);
        assert forall|k: int| 0 <= k < acc.len() implies r.0[k] == acc[k] by {
            assert(acc2[k] == acc[k]);
        }
    } else {
        lemma_forward_new_prefix(acts, facts, entries, used, e, idx + 1, acc);
    }
}

proof fn lemma_forward_new_adds(
    acts: Seq<ActionSpec>,
    facts: Set<Seq<char>>,
    entries: Seq<(Set<Seq<char>>, Seq<usize>)>,
    used: Set<usize>,
    e: int,
    idx: int,
    acc: Seq<(Set<Seq<char>>, Seq<usize>)>,
    e2: int,
    a: int,
)
    requires
        0 <= e,
        0 <= idx,
        0 <= e2 < entries.len(),
        0 <= a < acts.len(),
        acts.len() <= usize::MAX,
        e2 > e || (e2 == e && a >= idx),
        !used.contains(a as usize),
        acts[a].preconditions@.subset_of(entries[e2].0.union(facts)),
    ensures
        ({
            let r = forward_new(acts, facts, entries, used, e, idx, acc);
            &&& r.1.contains(a as usize)
            &&& exists|k: int, e3: int| acc.len() <= k < r.0.len() && #[trigger] extends_by(r.0[k], entries, e3, acts, facts, a)
        }),
    decreases entries.len() - e, acts.len() - idx,
{
    let r0 = forward_new(acts, facts, entries, used, e, idx, acc);
    if idx >= acts.len() {
        lemma_forward_new_adds(acts, facts, entries, used, e + 1, 0, acc, e2, a);
        assert(r0 == forward_new(acts, facts, entries, used, e + 1, 0, acc));
    } else if !used.contains(idx as usize) && acts[idx].preconditions@.subset_of(entries[e].0.union(facts)) {
        let ne = (entries[e].0.union(acts[idx].effects@), entries[e].1.push(idx as usize));
        let acc2 = acc.push(ne);
        let used2 = used.insert(idx as usize);
        let r = forward_new(acts, facts, entries, used, e, idx, acc);
        assert(r == forward_new(acts, facts, entries, used2, e, idx + 1, acc2));
        lemma_forward_new_prefix(acts, facts, entries, used2, e, idx + 1, acc2);
        if a == idx {
            assert(r.0[acc.len() as int] == acc2[acc.len() as int]);
            assert(acc2[acc.len() as int] == ne);
            assert(used2.contains(a as usize));
            let k = acc.len() as int;
            assert(extends_by(r.0[k], entries, e, acts, facts, a));
            assert(r.1.contains(a as usize));
        } else {
            lemma_forward_new_adds(acts, facts, entries, used2, e, idx + 1, acc2, e2, a);
            let (k, e3) = choose|k: int, e3: int| acc2.len() <= k < r.0.len() && #[trigger] extends_by(r.0[k], entries, e3, acts, facts, a);
            assert(acc.len() <= k < r.0.len() && extends_by(r.0[k], entries, e3, acts, facts, a));
        }
    } else {
        lemma_forward_new_adds(acts, facts, entries, used, e, idx + 1, acc, e2, a);
        assert(r0 == forward_new(acts, facts, entries, used, e, idx + 1, acc));
    }
}

/// Backward entry `en` regresses entry `e3` of `entries` through action
/// `a`, which produces one of its needs: what is left after `a`, its plan
/// followed by `a`.
pub open spec fn regresses_by(
    en: (Set<Seq<char>>, Seq<usize>),
    entries: Seq<(Set<Seq<char>>, Seq<usize>)>,
    e3: int,
    acts: Seq<ActionSpec>,
    facts: Set<Seq<char>>,
    a: int,
) -> bool {
    &&& 0 <= e3 < entries.len()
    &&& en == (regress(acts[a], entries[e3].0, facts), entries[e3].1.push(a as usize))
    &&& produces_any(acts[a], entries[e3].0)
}

proof fn lemma_backward_new_prefix(
    acts: Seq<ActionSpec>,
    facts: Set<Seq<char>>,
    entries: Seq<(Set<Seq<char>>, Seq<usize>)>,
    used: Set<usize>,
    e: int,
    idx: int,
    acc: Seq<(Set<Seq<char>>, Seq<usize>)>,
)
    ensures
        ({
            let r = backward_new(acts, facts, entries, used, e, idx, acc);
            &&& acc.len() <= r.0.len()
            &&& forall|k: int| 0 <= k < acc.len() ==> r.0[k] == acc[k]
            &&& used.subset_of(r.1)
        }),
    decreases entries.len() - e, acts.len() - idx,
{
    if e < 0 || idx < 0 || e >= entries.len() {
    } else if idx >= acts.len() {
        lemma_backward_new_prefix(acts, facts, entries, used, e + 1, 0, acc);
    } else if !used.contains(idx as usize) && produces_any(acts[idx], entries[e].0) {
        let acc2 = acc.push((regress(acts[idx], entries[e].0, facts), entries[e].1.push(idx as usize)));
        lemma_backward_new_prefix(acts, facts, entries, used.insert(idx as usize), e, idx + 1, acc2);
        let r = backward_new(acts, facts, entries, used, e, idx, acc);
        assert forall|k: int| 0 <= k < acc.len() implies r.0[k] == acc[k] by {
            assert(acc2[k] == acc[k]);
        }
    } else {
        lemma_backward_new_prefix(acts, facts, entries, used, e, idx + 1, acc);
    }
}

proof fn lemma_backward_new_adds(
    acts: Seq<ActionSpec>,
    facts: Set<Seq<char>>,
    entries: Seq<(Set<Seq<char>>, Seq<usize>)>,
    used: Set<usize>,
    e: int,
    idx: int,
    acc: Seq<(Set<Seq<char>>, Seq<usize>)>,
    e2: int,
    a: int,
)
    requires
        0 <= e,
        0 <= idx,
        0 <= e2 < entries.len(),
        0 <= a < acts.len(),
        acts.len() <= usize::MAX,
        e2 > e || (e2 == e && a >= idx),
        !used.contains(a as usize),
        produces_any(acts[a], entries[e2].0),
    ensures
        ({
            let r = backward_new(acts, facts, entries, used, e, idx, acc);
            &&& r.1.contains(a as usize)
            &&& exists|k: int, e3: int| acc.len() <= k < r.0.len() && #[trigger] regresses_by(r.0[k], entries, e3, acts, facts, a)
        }),
    decreases entries.len() - e, acts.len() - idx,
{
    let r0 = backward_new(acts, facts, entries, used, e, idx, acc);
    if idx >= acts.len() {
        lemma_backward_new_adds(acts, facts, entries, used, e + 1, 0, acc, e2, a);
        assert(r0 == backward_new(acts, facts, entries, used, e + 1, 0, acc));
    } else if !used.contains(idx as usize) && produces_any(acts[idx], entries[e].0) {
        let ne = (regress(acts[idx], entries[e].0, facts), entries[e].1.push(idx as usize));
        let acc2 = acc.push(ne);
        let used2 = used.insert(idx as usize);
        let r = backward_new(acts, facts, entries, used, e, idx, acc);
        assert(r == backward_new(acts, facts, entries, used2, e, idx + 1, acc2));
        lemma_backward_new_prefix(acts, facts, entries, used2, e, idx + 1, acc2);
        if a == idx {
            assert(r.0[acc.len() as int] == acc2[acc.len() as int]);
            assert(acc2[acc.len() as int] == ne);
            assert(used2.contains(a as usize));
            let k = acc.len() as int;
            assert(regresses_by(r.0[k], entries, e, acts, facts, a));
            assert(r.1.contains(a as usize));
        } else {
            lemma_backward_new_adds(acts, facts, entries, used2, e, idx + 1, acc2, e2, a);
            let (k, e3) = choose|k: int, e3: int| acc2.len() <= k < r.0.len() && #[trigger] regresses_by(r.0[k], entries, e3, acts, facts, a);
            assert(acc.len() <= k < r.0.len() && regresses_by(r.0[k], entries, e3, acts, facts, a));
        }
    } else {
        lemma_backward_new_adds(acts, facts, entries, used, e, idx + 1, acc, e2, a);
        assert(r0 == backward_new(acts, facts, entries, used, e, idx + 1, acc));
    }
}

/// Whether a meeting is one: the backward entry's needs hold now, or are
/// among the forward entry's beliefs.
pub open spec fn is_meeting(
    facts: Set<Seq<char>>,
    fwd: Seq<(Set<Seq<char>>, Seq<usize>)>,
    bwd: Seq<(Set<Seq<char>>, Seq<usize>)>,
    m: (Option<usize>, usize),
) -> bool {
    &&& m.1 < bwd.len()
    &&& match m.0 {
        Some(f) => f < fwd.len() && bwd[m.1 as int].0.subset_of(fwd[f as int].0),
        None => bwd[m.1 as int].0.subset_of(facts),
    }
}

proof fn lemma_meetings_valid(
    facts: Set<Seq<char>>,
    fwd: Seq<(Set<Seq<char>>, Seq<usize>)>,
    bwd: Seq<(Set<Seq<char>>, Seq<usize>)>,
    b: int,
    f: int,
)
    requires
        fwd.len() <= usize::MAX,
        bwd.len() <= usize::MAX,
    ensures
        forall|i: int| 0 <= i < meetings_from(facts, fwd, bwd, b, f).len()
            ==> is_meeting(facts, fwd, bwd, #[trigger] meetings_from(facts, fwd, bwd, b, f)[i]),
    decreases bwd.len() - b, fwd.len() + 1 - f,
{
    if b < 0 || b >= bwd.len() || f < -1 {
    } else if f == -1 {
        lemma_meetings_valid(facts, fwd, bwd, b, 0);
        let rest = meetings_from(facts, fwd, bwd, b, 0);
        if !bwd[b].0.subset_of(facts) {
            assert(meetings_from(facts, fwd, bwd, b, f) == rest);
        }
        if bwd[b].0.subset_of(facts) {
            let all = seq![(None::<usize>, b as usize)] + rest;
            assert forall|i: int| 0 <= i < all.len() implies is_meeting(facts, fwd, bwd, #[trigger] all[i]) by {
                if i > 0 {
                    assert(all[i] == rest[i - 1]);
                }
            }
        }
    } else if f >= fwd.len() {
        lemma_meetings_valid(facts, fwd, bwd, b + 1, -1);
        assert(meetings_from(facts, fwd, bwd, b, f) == meetings_from(facts, fwd, bwd, b + 1, -1));
    } else {
        lemma_meetings_valid(facts, fwd, bwd, b, f + 1);
        let rest = meetings_from(facts, fwd, bwd, b, f + 1);
        if !bwd[b].0.subset_of(fwd[f].0) {
            assert(meetings_from(facts, fwd, bwd, b, f) == rest);
        }
        if bwd[b].0.subset_of(fwd[f].0) {
            let all = seq![(Some(f as usize), b as usize)] + rest;
            assert forall|i: int| 0 <= i < all.len() implies is_meeting(facts, fwd, bwd, #[trigger] all[i]) by {
                if i > 0 {
                    assert(all[i] == rest[i - 1]);
                }
            }
        }
    }
}

impl BidirectionalFrontier {
    /// The frontiers before any expansion: forward, the beliefs named by
    /// some action that hold now, with an empty plan; backward, the goal's
    /// unsatisfied beliefs, with an empty plan; no action used.
    pub fn new(actions: &[ActionSpec], facts: &BeliefIdSet, goal_unsatisfied: &BeliefIdSet) -> (fr: Self)
        ensures
            entries_view(fr.forward@) == seq![(mentioned(actions@).intersect(facts@), Seq::<usize>::empty())],
            entries_view(fr.backward@) == seq![(goal_unsatisfied@, Seq::<usize>::empty())],
            used_set(fr.forward_used@) == Set::<usize>::empty(),
            used_set(fr.backward_used@) == Set::<usize>::empty(),
            fr.goal@ == goal_unsatisfied@,
            fr.sound(actions@, facts@),
    {
        let n = actions.len();
        let mut produced = BeliefIdSet::new();
        let mut fu: Vec<bool> = Vec::new();
        let mut bu: Vec<bool> = Vec::new();
        let mut i: usize = 0;
        while i < n
            invariant
                n == actions@.len(),
                0 <= i <= n,
                fu@.len() == i,
                bu@.len() == i,
                forall|j: int| 0 <= j < i ==> !fu@[j] && !bu@[j],
                produced@ == Set::new(|x: Seq<char>| facts@.contains(x) && exists|j: int| 0 <= j < i
                    && (#[trigger] actions@[j].effects@.contains(x) || actions@[j].preconditions@.contains(x))),
            decreases n - i,
        {
            let e = actions[i].effects.intersection(facts);
            produced.insert_all(&e);
            let p = actions[i].preconditions.intersection(facts);
            produced.insert_all(&p);
            fu.push(false);
            bu.push(false);
            proof {
                assert(produced@ =~= Set::new(|x: Seq<char>| facts@.contains(x) && exists|j: int| 0 <= j < i + 1
                    && (#[trigger] actions@[j].effects@.contains(x) || actions@[j].preconditions@.contains(x)))) by {
                    assert forall|x: Seq<char>| produced@.contains(x) implies facts@.contains(x) && exists|j: int| 0 <= j < i + 1
                        && (#[trigger] actions@[j].effects@.contains(x) || actions@[j].preconditions@.contains(x)) by {
                        if actions@[i as int].effects@.contains(x) || actions@[i as int].preconditions@.contains(x) {
                        }
                    }
                }
            }
            i += 1;
        }
        proof {
            assert forall|x: Seq<char>| produced@.contains(x) <==> mentioned(actions@).intersect(facts@).contains(x) by {
                if mentioned(actions@).contains(x) {
                    let j = choose|j: int| 0 <= j < actions@.len()
                        && (#[trigger] actions@[j].effects@.contains(x) || actions@[j].preconditions@.contains(x));
                    assert(actions@[j].effects@.contains(x) || actions@[j].preconditions@.contains(x));
                }
                if produced@.contains(x) {
                    let j = choose|j: int| 0 <= j < n
                        && (#[trigger] actions@[j].effects@.contains(x) || actions@[j].preconditions@.contains(x));
                    assert(actions@[j].effects@.contains(x) || actions@[j].preconditions@.contains(x));
                }
            }
            assert(produced@ =~= mentioned(actions@).intersect(facts@));
        }
        let mut forward: Vec<FrontierEntry> = Vec::new();
        forward.push((produced, Vec::new()));
        let mut backward: Vec<FrontierEntry> = Vec::new();
        backward.push((goal_unsatisfied.clone(), Vec::new()));
        let fr = BidirectionalFrontier {
            forward,
            backward,
            forward_used: fu,
            backward_used: bu,
            goal: goal_unsatisfied.clone(),
        };
        proof {
            assert(entries_view(fr.forward@) =~= seq![(mentioned(actions@).intersect(facts@), Seq::<usize>::empty())]);
            assert(entries_view(fr.backward@) =~= seq![(goal_unsatisfied@, Seq::<usize>::empty())]);
            assert(used_set(fr.forward_used@) =~= Set::<usize>::empty());
            assert(used_set(fr.backward_used@) =~= Set::<usize>::empty());
            assert(Seq::<usize>::empty().reverse() =~= Seq::<usize>::empty());
            assert(forward_sound(actions@, facts@, entries_view(fr.forward@)[0]));
            assert(backward_sound(actions@, facts@, fr.goal@, entries_view(fr.backward@)[0]));
        }
        fr
    }

    /// One round of growth. Forward: for each entry in order, each action
    /// in order that is unused and whose preconditions hold in the entry's
    /// beliefs or now adds an entry with its effects and the plan extended,
    /// and becomes used. Backward: likewise with the actions producing a
    /// needed belief, the new needs being what is left after the action.
    pub fn expand(&mut self, actions: &[ActionSpec], facts: &BeliefIdSet)
        requires
            old(self).sound(actions@, facts@),
        ensures
            ({
                let fw = forward_new(actions@, facts@, entries_view(old(self).forward@), used_set(old(self).forward_used@), 0, 0, Seq::empty());
                let bw = backward_new(actions@, facts@, entries_view(old(self).backward@), used_set(old(self).backward_used@), 0, 0, Seq::empty());
                &&& entries_view(final(self).forward@) == entries_view(old(self).forward@) + fw.0
                &&& used_set(final(self).forward_used@) == fw.1
                &&& entries_view(final(self).backward@) == entries_view(old(self).backward@) + bw.0
                &&& used_set(final(self).backward_used@) == bw.1
            }),
            final(self).goal@ == old(self).goal@,
            final(self).sound(actions@, facts@),
            forall|e2: int, a: int| 0 <= e2 < old(self).forward@.len() && 0 <= a < actions@.len()
                && !used_set(old(self).forward_used@).contains(a as usize)
                && #[trigger] actions@[a].preconditions@.subset_of(entries_view(old(self).forward@)[e2].0.union(facts@))
                ==> {
                &&& used_set(final(self).forward_used@).contains(a as usize)
                &&& exists|k: int, e3: int| old(self).forward@.len() <= k < final(self).forward@.len()
                    && #[trigger] extends_by(entries_view(final(self).forward@)[k], entries_view(old(self).forward@), e3, actions@, facts@, a)
            },
            forall|e2: int, a: int| 0 <= e2 < old(self).backward@.len() && 0 <= a < actions@.len()
                && !used_set(old(self).backward_used@).contains(a as usize)
                && #[trigger] produces_any(actions@[a], entries_view(old(self).backward@)[e2].0)
                ==> {
                &&& used_set(final(self).backward_used@).contains(a as usize)
                &&& exists|k: int, e3: int| old(self).backward@.len() <= k < final(self).backward@.len()
                    && #[trigger] regresses_by(entries_view(final(self).backward@)[k], entries_view(old(self).backward@), e3, actions@, facts@, a)
            },
    {
        let ghost acts = actions@;
        let ghost f0 = entries_view(self.forward@);
        let ghost u0 = used_set(self.forward_used@);
        let n = actions.len();
        let old_len = self.forward.len();
        let mut fresh: Vec<FrontierEntry> = Vec::new();
        proof {
            assert(entries_view(fresh@) =~= Seq::<(Set<Seq<char>>, Seq<usize>)>::empty());
        }
        let mut e: usize = 0;
        while e < old_len
            invariant
                n == acts.len(),
                acts == actions@,
                old_len == self.forward@.len(),
                f0 == entries_view(self.forward@),
                self.forward_used@.len() == n,
                0 <= e <= old_len,
                forward_new(acts, facts@, f0, u0, 0, 0, Seq::empty())
                    == forward_new(acts, facts@, f0, used_set(self.forward_used@), e as int, 0, entries_view(fresh@)),
                forall|i: int| 0 <= i < f0.len() ==> forward_sound(acts, facts@, #[trigger] f0[i]),
                forall|i: int| 0 <= i < fresh@.len() ==> forward_sound(acts, facts@, #[trigger] entries_view(fresh@)[i]),
                self.backward_used@ == old(self).backward_used@,
                self.backward@ == old(self).backward@,
                self.goal == old(self).goal,
            decreases old_len - e,
        {
            let mut idx: usize = 0;
            while idx < n
                invariant
                    n == acts.len(),
                    acts == actions@,
                    old_len == self.forward@.len(),
                    f0 == entries_view(self.forward@),
                    self.forward_used@.len() == n,
                    0 <= e < old_len,
                    0 <= idx <= n,
                    forward_new(acts, facts@, f0, u0, 0, 0, Seq::empty())
                        == forward_new(acts, facts@, f0, used_set(self.forward_used@), e as int, idx as int, entries_view(fresh@)),
                    forall|i: int| 0 <= i < f0.len() ==> forward_sound(acts, facts@, #[trigger] f0[i]),
                    forall|i: int| 0 <= i < fresh@.len() ==> forward_sound(acts, facts@, #[trigger] entries_view(fresh@)[i]),
                    self.backward_used@ == old(self).backward_used@,
                    self.backward@ == old(self).backward@,
                    self.goal == old(self).goal,
                decreases n - idx,
            {
                proof {
                    assert(used_set(self.forward_used@).contains(idx) == self.forward_used@[idx as int]);
                }
                if !self.forward_used[idx] && actions[idx].preconditions.is_covered_by(&self.forward[e].0, facts) {
                    let mut produced = self.forward[e].0.clone();
                    produced.insert_all(&actions[idx].effects);
                    let mut plan = copy_plan(&self.forward[e].1);
                    plan.push(idx);
                    let ghost before = entries_view(fresh@);
                    proof {
                        assert(f0[e as int] == (self.forward@[e as int].0@, self.forward@[e as int].1@));
                        assert(acts[idx as int].preconditions@.subset_of(f0[e as int].0.union(facts@)));
                        lemma_forward_step_sound(acts, facts@, f0[e as int], idx);
                    }
                    fresh.push((produced, plan));
                    proof {
                        assert(entries_view(fresh@) =~= before.push((f0[e as int].0.union(acts[idx as int].effects@), f0[e as int].1.push(idx))));
                    }
                    let ghost ub = used_set(self.forward_used@);
                    self.forward_used.set(idx, true);
                    proof {
                        assert(used_set(self.forward_used@) =~= ub.insert(idx));
                    }
                }
                idx += 1;
            }
            e += 1;
        }
        let ghost fw = forward_new(acts, facts@, f0, u0, 0, 0, Seq::empty());
        proof {
            assert(fw == (entries_view(fresh@), used_set(self.forward_used@)));
        }
        let ghost fresh_v = entries_view(fresh@);
        self.forward.append(&mut fresh);
        proof {
            assert(entries_view(self.forward@) =~= f0 + fresh_v);
        }

        let ghost b0 = entries_view(self.backward@);
        let ghost v0 = used_set(self.backward_used@);
        let ghost goal = self.goal@;
        let old_blen = self.backward.len();
        let mut bfresh: Vec<FrontierEntry> = Vec::new();
        proof {
            assert(entries_view(bfresh@) =~= Seq::<(Set<Seq<char>>, Seq<usize>)>::empty());
        }
        let mut e: usize = 0;
        while e < old_blen
            invariant
                n == acts.len(),
                acts == actions@,
                old_blen == self.backward@.len(),
                b0 == entries_view(self.backward@),
                self.backward_used@.len() == n,
                goal == self.goal@,
                0 <= e <= old_blen,
                backward_new(acts, facts@, b0, v0, 0, 0, Seq::empty())
                    == backward_new(acts, facts@, b0, used_set(self.backward_used@), e as int, 0, entries_view(bfresh@)),
                forall|i: int| 0 <= i < b0.len() ==> backward_sound(acts, facts@, goal, #[trigger] b0[i]),
                forall|i: int| 0 <= i < bfresh@.len() ==> backward_sound(acts, facts@, goal, #[trigger] entries_view(bfresh@)[i]),
                entries_view(self.forward@) == f0 + fresh_v,
                used_set(self.forward_used@) == fw.1,
                self.forward_used@.len() == n,
                forall|i: int| 0 <= i < self.forward@.len() ==> forward_sound(acts, facts@, #[trigger] entries_view(self.forward@)[i]),
                self.goal == old(self).goal,
            decreases old_blen - e,
        {
            let mut idx: usize = 0;
            while idx < n
                invariant
                    n == acts.len(),
                    acts == actions@,
                    old_blen == self.backward@.len(),
                    b0 == entries_view(self.backward@),
                    self.backward_used@.len() == n,
                    goal == self.goal@,
                    0 <= e < old_blen,
                    0 <= idx <= n,
                    backward_new(acts, facts@, b0, v0, 0, 0, Seq::empty())
                        == backward_new(acts, facts@, b0, used_set(self.backward_used@), e as int, idx as int, entries_view(bfresh@)),
                    forall|i: int| 0 <= i < b0.len() ==> backward_sound(acts, facts@, goal, #[trigger] b0[i]),
                    forall|i: int| 0 <= i < bfresh@.len() ==> backward_sound(acts, facts@, goal, #[trigger] entries_view(bfresh@)[i]),
                    entries_view(self.forward@) == f0 + fresh_v,
                    used_set(self.forward_used@) == fw.1,
                    self.forward_used@.len() == n,
                    forall|i: int| 0 <= i < self.forward@.len() ==> forward_sound(acts, facts@, #[trigger] entries_view(self.forward@)[i]),
                    self.goal == old(self).goal,
                decreases n - idx,
            {
                proof {
                    assert(used_set(self.backward_used@).contains(idx) == self.backward_used@[idx as int]);
                }
                if !self.backward_used[idx] {
                    proof {
                        assert(b0[e as int] == (self.backward@[e as int].0@, self.backward@[e as int].1@));
                    }
                    if let Some(needed) = GoapPlanner::regress_through(&actions[idx], &self.backward[e].0, facts) {
                        let mut plan = copy_plan(&self.backward[e].1);
                        plan.push(idx);
                        let ghost before = entries_view(bfresh@);
                        proof {
                            lemma_backward_step_sound(acts, facts@, goal, b0[e as int], idx);
                        }
                        bfresh.push((needed, plan));
                        proof {
                            assert(entries_view(bfresh@) =~= before.push((regress(acts[idx as int], b0[e as int].0, facts@), b0[e as int].1.push(idx))));
                        }
                        let ghost ub = used_set(self.backward_used@);
                        self.backward_used.set(idx, true);
                        proof {
                            assert(used_set(self.backward_used@) =~= ub.insert(idx));
                        }
                    }
                }
                idx += 1;
            }
            e += 1;
        }
        let ghost bw = backward_new(acts, facts@, b0, v0, 0, 0, Seq::empty());
        proof {
            assert(bw == (entries_view(bfresh@), used_set(self.backward_used@)));
        }
        let ghost bfresh_v = entries_view(bfresh@);
        self.backward.append(&mut bfresh);
        proof {
            assert(entries_view(self.backward@) =~= b0 + bfresh_v);
            assert forall|i: int| 0 <= i < self.backward@.len() implies backward_sound(acts, facts@, goal, #[trigger] entries_view(self.backward@)[i]) by {
                if i < b0.len() {
                    assert(entries_view(self.backward@)[i] == b0[i]);
                } else {
                    assert(entries_view(self.backward@)[i] == bfresh_v[i - b0.len()]);
                }
            }
        }
        proof {
            let f_old = entries_view(old(self).forward@);
            let fw = forward_new(acts, facts@, f_old, used_set(old(self).forward_used@), 0, 0, Seq::empty());
            assert forall|e2: int, a: int| 0 <= e2 < old(self).forward@.len() && 0 <= a < actions@.len()
                && !used_set(old(self).forward_used@).contains(a as usize)
                && #[trigger] actions@[a].preconditions@.subset_of(entries_view(old(self).forward@)[e2].0.union(facts@))
                implies {
                &&& used_set(self.forward_used@).contains(a as usize)
                &&& exists|k: int, e3: int| old(self).forward@.len() <= k < self.forward@.len()
                    && #[trigger] extends_by(entries_view(self.forward@)[k], entries_view(old(self).forward@), e3, actions@, facts@, a)
            } by {
                lemma_forward_new_adds(acts, facts@, f_old, used_set(old(self).forward_used@), 0, 0, Seq::empty(), e2, a);
                let (k, e3) = choose|k: int, e3: int| 0 <= k < fw.0.len() && #[trigger] extends_by(fw.0[k], f_old, e3, acts, facts@, a);
                assert(entries_view(self.forward@)[f_old.len() + k] == fw.0[k]);
                assert(extends_by(entries_view(self.forward@)[f_old.len() + k], f_old, e3, acts, facts@, a));
            }
            let b_old = entries_view(old(self).backward@);
            let bw2 = backward_new(acts, facts@, b_old, used_set(old(self).backward_used@), 0, 0, Seq::empty());
            assert forall|e2: int, a: int| 0 <= e2 < old(self).backward@.len() && 0 <= a < actions@.len()
                && !used_set(old(self).backward_used@).contains(a as usize)
                && #[trigger] produces_any(actions@[a], entries_view(old(self).backward@)[e2].0)
                implies {
                &&& used_set(self.backward_used@).contains(a as usize)
                &&& exists|k: int, e3: int| old(self).backward@.len() <= k < self.backward@.len()
                    && #[trigger] regresses_by(entries_view(self.backward@)[k], entries_view(old(self).backward@), e3, actions@, facts@, a)
            } by {
                lemma_backward_new_adds(acts, facts@, b_old, used_set(old(self).backward_used@), 0, 0, Seq::empty(), e2, a);
                let (k, e3) = choose|k: int, e3: int| 0 <= k < bw2.0.len() && #[trigger] regresses_by(bw2.0[k], b_old, e3, acts, facts@, a);
                assert(entries_view(self.backward@)[b_old.len() + k] == bw2.0[k]);
                assert(regresses_by(entries_view(self.backward@)[b_old.len() + k], b_old, e3, acts, facts@, a));
            }
        }
    }

    /// The meetings of the frontiers, in search order: for each backward
    /// entry, itself when its needs all hold now (`None`), then each forward
    /// entry whose beliefs include its needs. Each one's plan (the forward
    /// plan, then the backward plan from its end) runs in order from now and
    /// produces every goal belief that does not hold now.
    pub fn meetings(&self, actions: &[ActionSpec], facts: &BeliefIdSet) -> (r: Vec<(Option<usize>, usize)>)
        requires
            self.sound(actions@, facts@),
        ensures
            r@ == meetings_from(facts@, entries_view(self.forward@), entries_view(self.backward@), 0, -1),
            forall|i: int| 0 <= i < r@.len() ==> is_meeting(facts@, entries_view(self.forward@), entries_view(self.backward@), #[trigger] r@[i]),
            forall|i: int| 0 <= i < r@.len() ==> {
                let plan = meeting_plan(entries_view(self.forward@), entries_view(self.backward@), #[trigger] r@[i]);
                &&& runs_in_order(actions@, facts@, plan)
                &&& covers(actions@, facts@, plan, self.goal@)
            },
    {
        let ghost fwd = entries_view(self.forward@);
        let ghost bwd = entries_view(self.backward@);
        let mut out: Vec<(Option<usize>, usize)> = Vec::new();
        let bl = self.backward.len();
        let fl = self.forward.len();
        let mut b: usize = 0;
        while b < bl
            invariant
                bl == self.backward@.len(),
                fl == self.forward@.len(),
                fwd == entries_view(self.forward@),
                bwd == entries_view(self.backward@),
                0 <= b <= bl,
                meetings_from(facts@, fwd, bwd, 0, -1) == out@ + meetings_from(facts@, fwd, bwd, b as int, -1),
            decreases bl - b,
        {
            proof {
                assert(bwd[b as int].0 == self.backward@[b as int].0@);
            }
            if self.backward[b].0.is_subset_of(facts) {
                let ghost before = out@;
                out.push((None, b));
                proof {
                    assert(out@ =~= before + seq![(None::<usize>, b)]);
                }
            }
            let mut f: usize = 0;
            while f < fl
                invariant
                    bl == self.backward@.len(),
                    fl == self.forward@.len(),
                    fwd == entries_view(self.forward@),
                    bwd == entries_view(self.backward@),
                    0 <= b < bl,
                    0 <= f <= fl,
                    meetings_from(facts@, fwd, bwd, 0, -1) == out@ + meetings_from(facts@, fwd, bwd, b as int, f as int),
                decreases fl - f,
            {
                proof {
                    assert(fwd[f as int].0 == self.forward@[f as int].0@);
                }
                if self.backward[b].0.is_subset_of(&self.forward[f].0) {
                    let ghost before = out@;
                    out.push((Some(f), b));
                    proof {
                        assert(out@ =~= before + seq![(Some(f), b)]);
                    }
                }
                f += 1;
            }
            b += 1;
        }
        proof {
            assert(out@ =~= out@ + meetings_from(facts@, fwd, bwd, bl as int, -1));
            lemma_meetings_valid(facts@, fwd, bwd, 0, -1);
            assert forall|i: int| 0 <= i < out@.len() implies {
                let plan = meeting_plan(fwd, bwd, #[trigger] out@[i]);
                &&& runs_in_order(actions@, facts@, plan)
                &&& covers(actions@, facts@, plan, self.goal@)
            } by {
                let m = out@[i];
                assert(is_meeting(facts@, fwd, bwd, m));
                assert(backward_sound(actions@, facts@, self.goal@, bwd[m.1 as int]));
                match m.0 {
                    Some(f) => {
                        assert(forward_sound(actions@, facts@, fwd[f as int]));
                        lemma_meeting_plan_sound(actions@, facts@, self.goal@, Some(fwd[f as int]), bwd[m.1 as int]);
                    },
                    None => {
                        lemma_meeting_plan_sound(actions@, facts@, self.goal@, None, bwd[m.1 as int]);
                    },
                }
            }
        }
        out
    }
}

} // verus!
