//! Utility-AI helpers that do not depend on score arithmetic: scoring
//! modes, action sources, and the choices of the assignment strategies made
//! on order keys of the scores.

use vstd::prelude::*;

verus! {

/// How considerations combine into a final score.
#[derive(Debug, Clone, Copy, PartialEq, Eq, Structural)]
pub enum ScoringMode {
    /// Multiply: base * c1 * c2 * ... (default, good for veto-style).
    Multiplicative,
    /// Add: base + w1*c1 + w2*c2 + ... (good for additive bonuses).
    Additive,
}

/// A source of actions: world objects advertise the actions they offer,
/// given the viewer's context.
pub trait ActionSource<A, V> {
    /// The actions this object offers in `context`.
    spec fn offered(&self, context: &V) -> Seq<A>;

    /// The actions this object currently offers.
    fn available_actions(&self, context: &V) -> (r: Vec<A>)
        ensures
            r@ == self.offered(context),
    ;
}

/// What each source offers in `context`, source by source.
pub open spec fn offers_of<A, V>(sources: Seq<&dyn ActionSource<A, V>>, context: &V) -> Seq<Seq<A>> {
    sources.map_values(|src: &dyn ActionSource<A, V>| src.offered(context))
}

/// All the lists, one after the other.
pub open spec fn flatten_lists<A>(lists: Seq<Vec<A>>) -> Seq<A>
    decreases lists.len(),
{
    if lists.len() == 0 {
        Seq::empty()
    } else {
        flatten_lists(lists.drop_last()) + lists.last()@
    }
}

/// Concatenate the lists of actions in order.
pub fn concat_actions<A>(lists: Vec<Vec<A>>) -> (r: Vec<A>)
    ensures
        r@ == flatten_lists(lists@),
{
    let mut out: Vec<A> = Vec::new();
    let mut lists = lists;
    let ghost all = lists@;
    let n = lists.len();
    let mut rest: Vec<Vec<A>> = Vec::new();
    // Reverse so that popping yields the lists in order.
    let mut i: usize = 0;
    while i < n
        invariant
            n == all.len(),
            0 <= i <= n,
            lists@ == all.take((n - i) as int),
            rest@.len() == i,
            forall|k: int| 0 <= k < i ==> rest@[k] == all[n - 1 - k],
        decreases n - i,
    {
        let v = lists.pop().unwrap();
        rest.push(v);
        proof {
            assert(all.take((n - i) as int).drop_last() =~= all.take((n - i - 1) as int));
        }
        i += 1;
    }
    proof {
        assert(out@ =~= flatten_lists(all.take(0)));
    }
    let mut j: usize = 0;
    while j < n
        invariant
            n == all.len(),
            0 <= j <= n,
            rest@.len() == n - j,
            forall|k: int| 0 <= k < n - j ==> rest@[k] == all[n - 1 - k],
            out@ == flatten_lists(all.take(j as int)),
        decreases n - j,
    {
        let mut v = rest.pop().unwrap();
        proof {
            assert(v == all[j as int]);
            assert(all.take(j + 1).drop_last() =~= all.take(j as int));
            assert(all.take(j + 1).last() == all[j as int]);
        }
        let ghost before = out@;
        out.append(&mut v);
        proof {
            assert(out@ =~= before + all[j as int]@);
        }
        j += 1;
    }
    proof {
        assert(all.take(n as int) =~= all);
    }
    out
}

/// All the sequences, one after the other.
pub open spec fn flatten_seqs<A>(seqs: Seq<Seq<A>>) -> Seq<A>
    decreases seqs.len(),
{
    if seqs.len() == 0 {
        Seq::empty()
    } else {
        flatten_seqs(seqs.drop_last()) + seqs.last()
    }
}

proof fn lemma_flatten_views<A>(lists: Seq<Vec<A>>, seqs: Seq<Seq<A>>)
    requires
        lists.len() == seqs.len(),
        forall|k: int| 0 <= k < lists.len() ==> lists[k]@ == seqs[k],
    ensures
        flatten_lists(lists) == flatten_seqs(seqs),
    decreases lists.len(),
{
    if lists.len() > 0 {
        lemma_flatten_views(lists.drop_last(), seqs.drop_last());
    }
}

/// Collect the actions of every source, source by source in order: each
/// source is asked once, in order, with `context`, and its actions follow
/// those of the sources before it.
pub fn collect_actions<A, V>(sources: &[&dyn ActionSource<A, V>], context: &V) -> (r: Vec<A>)
    ensures
        r@ == flatten_seqs(offers_of(sources@, context)),
{
    let mut lists: Vec<Vec<A>> = Vec::new();
    let n = sources.len();
    let mut i: usize = 0;
    while i < n
        invariant
            n == sources@.len(),
            0 <= i <= n,
            lists@.len() == i,
            forall|k: int| 0 <= k < i ==> #[trigger] lists@[k]@ == sources@[k].offered(context),
        decreases n - i,
    {
        lists.push(sources[i].available_actions(context));
        i += 1;
    }
    let ghost ls = lists@;
    let r = concat_actions(lists);
    proof {
        lemma_flatten_views(ls, offers_of(sources@, context));
    }
    r
}

/// Hungarian (Kuhn-Munkres) assignment: optimal one-to-one matching that
/// maximizes the total score.
#[derive(Debug)]
pub struct Hungarian;

impl Hungarian {
    /// The Hungarian strategy.
    pub fn new() -> (h: Self)
        ensures
            h == Hungarian,
    {
        Hungarian
    }
}

impl Default for Hungarian {
    fn default() -> (h: Self)
        ensures
            h == Hungarian,
    {
        Hungarian
    }
}

/// A cell can be picked: it has a key (its score is neither NaN nor
/// negative infinity).
pub open spec fn pickable(keys: Seq<Vec<Option<u64>>>, e: int, t: int) -> bool {
    0 <= e < keys.len() && 0 <= t < keys[e]@.len() && keys[e]@[t] is Some
}

/// The key of a pickable cell.
pub open spec fn key_at(keys: Seq<Vec<Option<u64>>>, e: int, t: int) -> u64 {
    keys[e]@[t]->0
}

/// `(e, t)` comes before `(e2, t2)` in row order.
pub open spec fn row_major_before(e: int, t: int, e2: int, t2: int) -> bool {
    e < e2 || (e == e2 && t < t2)
}

/// `(e, t)` is the first highest-keyed pickable cell among the rows that
/// are not yet assigned.
pub open spec fn is_greedy_pick(keys: Seq<Vec<Option<u64>>>, assigned: Seq<bool>, e: int, t: int) -> bool {
    &&& pickable(keys, e, t)
    &&& !assigned[e]
    &&& forall|e2: int, t2: int| #![trigger keys[e2]@[t2]] pickable(keys, e2, t2) && !assigned[e2] ==> {
        &&& key_at(keys, e2, t2) <= key_at(keys, e, t)
        &&& row_major_before(e2, t2, e, t) ==> key_at(keys, e2, t2) < key_at(keys, e, t)
    }
}

/// Entity of a pick.
pub open spec fn pick_entity(p: Option<(usize, usize)>) -> int {
    match p {
        Some((e, _)) => e as int,
        None => 0,
    }
}

/// Task of a pick.
pub open spec fn pick_task(p: Option<(usize, usize)>) -> int {
    match p {
        Some((_, t)) => t as int,
        None => 0,
    }
}

/// One greedy choice: the unassigned entity and task with the highest score
/// (given by order keys: `None` marks a score that can never be picked),
/// the first such pair in row order; `None` when no pair can be picked.
pub fn greedy_pick(keys: &Vec<Vec<Option<u64>>>, assigned: &Vec<bool>) -> (r: Option<(usize, usize)>)
    requires
        keys@.len() <= assigned@.len(),
    ensures
        match r {
            Some((e, t)) => is_greedy_pick(keys@, assigned@, e as int, t as int),
            None => forall|e: int, t: int| #![trigger keys@[e]@[t]] pickable(keys@, e, t) ==> assigned@[e],
        },
{
    let mut best: Option<(usize, usize)> = None;
    let mut best_key: u64 = 0;
    let n = keys.len();
    let mut e: usize = 0;
    while e < n
        invariant
            n == keys@.len(),
            n <= assigned@.len(),
            0 <= e <= n,
            match best {
                Some((be, bt)) => {
                    &&& pickable(keys@, be as int, bt as int)
                    &&& !assigned@[be as int]
                    &&& key_at(keys@, be as int, bt as int) == best_key
                    &&& (be as int) < e
                },
                None => true,
            },
            forall|e2: int, t2: int| #![trigger keys@[e2]@[t2]] 0 <= e2 < e && pickable(keys@, e2, t2) && !assigned@[e2] ==> {
                &&& best is Some
                &&& key_at(keys@, e2, t2) <= best_key
                &&& row_major_before(e2, t2, pick_entity(best), pick_task(best)) ==> key_at(keys@, e2, t2) < best_key
            },
        decreases n - e,
    {
        if !assigned[e] {
            let row = &keys[e];
            let m = row.len();
            let mut t: usize = 0;
            while t < m
                invariant
                    n == keys@.len(),
                    n <= assigned@.len(),
                    0 <= e < n,
                    !assigned@[e as int],
                    row@ == keys@[e as int]@,
                    m == row@.len(),
                    0 <= t <= m,
                    match best {
                        Some((be, bt)) => {
                            &&& pickable(keys@, be as int, bt as int)
                            &&& !assigned@[be as int]
                            &&& key_at(keys@, be as int, bt as int) == best_key
                            &&& row_major_before(be as int, bt as int, e as int, t as int)
                        },
                        None => true,
                    },
                    forall|e2: int, t2: int| #![trigger keys@[e2]@[t2]]
                        (0 <= e2 < e || (e2 == e && 0 <= t2 < t)) && pickable(keys@, e2, t2) && !assigned@[e2] ==> {
                        &&& best is Some
                        &&& key_at(keys@, e2, t2) <= best_key
                        &&& row_major_before(e2, t2, pick_entity(best), pick_task(best)) ==> key_at(keys@, e2, t2) < best_key
                    },
                decreases m - t,
            {
                match row[t] {
                    Some(k) => {
                        if best.is_none() || k > best_key {
                            best = Some((e, t));
                            best_key = k;
                        }
                    },
                    None => {},
                }
                t += 1;
            }
        }
        e += 1;
    }
    best
}

/// The first task with the highest key in one entity's row, or `None`
/// when no task of the row can be picked.
pub fn best_in_row(row: &Vec<Option<u64>>) -> (r: Option<usize>)
    ensures
        match r {
            Some(t) => {
                &&& t < row@.len()
                &&& row@[t as int] is Some
                &&& forall|t2: int| 0 <= t2 < row@.len() && #[trigger] row@[t2] is Some ==> {
                    &&& row@[t2]->0 <= row@[t as int]->0
                    &&& t2 < t ==> row@[t2]->0 < row@[t as int]->0
                }
            },
            None => forall|t2: int| 0 <= t2 < row@.len() ==> #[trigger] row@[t2] is None,
        },
{
    let mut best: Option<usize> = None;
    let mut best_key: u64 = 0;
    let m = row.len();
    let mut t: usize = 0;
    while t < m
        invariant
            m == row@.len(),
            0 <= t <= m,
            match best {
                Some(b) => b < t && row@[b as int] == Some(best_key),
                None => true,
            },
            forall|t2: int| 0 <= t2 < t && #[trigger] row@[t2] is Some ==> {
                &&& best is Some
                &&& row@[t2]->0 <= best_key
                &&& t2 < best->0 ==> row@[t2]->0 < best_key
            },
        decreases m - t,
    {
        match row[t] {
            Some(k) => {
                if best.is_none() || k > best_key {
                    best = Some(t);
                    best_key = k;
                }
            },
            None => {},
        }
        t += 1;
    }
    best
}

/// The picking order of round-robin assignment: the given priority order,
/// or every entity in index order.
pub fn round_robin_order(order: &Option<Vec<usize>>, num_entities: usize) -> (r: Vec<usize>)
    ensures
        r@ == match order {
            Some(o) => o@,
            None => Seq::new(num_entities as nat, |i: int| i as usize),
        },
{
    match order {
        Some(o) => {
            let mut r: Vec<usize> = Vec::new();
            let n = o.len();
            let mut i: usize = 0;
            while i < n
                invariant
                    n == o@.len(),
                    0 <= i <= n,
                    r@ == o@.take(i as int),
                decreases n - i,
            {
                r.push(o[i]);
                proof {
                    assert(o@.take(i + 1) =~= o@.take(i as int).push(o@[i as int]));
                }
                i += 1;
            }
            proof {
                assert(o@.take(n as int) =~= o@);
            }
            r
        },
        None => {
            let mut r: Vec<usize> = Vec::new();
            let mut i: usize = 0;
            while i < num_entities
                invariant
                    0 <= i <= num_entities,
                    r@ == Seq::new(i as nat, |k: int| k as usize),
                decreases num_entities - i,
            {
                r.push(i);
                proof {
                    assert(r@ =~= Seq::new((i + 1) as nat, |k: int| k as usize));
                }
                i += 1;
            }
            r
        },
    }
}

/// The initial generator state of weighted-random assignment: the seed,
/// with zero (where xorshift would stay at zero) replaced by a fixed
/// non-zero constant.
pub fn weighted_random_state(seed: u64) -> (state: u64)
    ensures
        state == (if seed == 0 { 0x9E37_79B9_7F4A_7C15u64 } else { seed }),
        state != 0,
{
    if seed == 0 {
        0x9E37_79B9_7F4A_7C15
    } else {
        seed
    }
}

} // verus!
