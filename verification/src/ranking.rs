//! Orders of indices by integer keys, ties broken by index: what a stable
//! sort by key produces.

use vstd::prelude::*;

verus! {

/// `a` comes before `b`: by key (ascending, or descending when `desc`),
/// then by index.
pub open spec fn precedes(keys: Seq<u64>, a: usize, b: usize, desc: bool) -> bool {
    if desc {
        keys[a as int] > keys[b as int] || (keys[a as int] == keys[b as int] && a < b)
    } else {
        keys[a as int] < keys[b as int] || (keys[a as int] == keys[b as int] && a < b)
    }
}

/// `c` is strictly ordered by `precedes`.
pub open spec fn sorted_by_key(keys: Seq<u64>, c: Seq<usize>, desc: bool) -> bool {
    forall|i: int, j: int| 0 <= i < j < c.len() ==> precedes(keys, #[trigger] c[i], #[trigger] c[j], desc)
}

/// Two orders of the same indices by the same keys are the same sequence.
pub proof fn lemma_sorted_unique(keys: Seq<u64>, c1: Seq<usize>, c2: Seq<usize>, desc: bool)
    requires
        sorted_by_key(keys, c1, desc),
        sorted_by_key(keys, c2, desc),
        c1.to_set() == c2.to_set(),
    ensures
        c1 == c2,
    decreases c1.len(),
{
    if c1.len() == 0 {
        if c2.len() > 0 {
            assert(c2.to_set().contains(c2[0]));
            assert(c1.to_set().contains(c2[0]));
        }
        assert(c1 =~= c2);
    } else {
        if c2.len() == 0 {
            assert(c1.to_set().contains(c1[0]));
            assert(c2.to_set().contains(c1[0]));
        }
        let a = c1[0];
        let b = c2[0];
        assert(c1.to_set().contains(a));
        assert(c2.contains(a));
        let p = choose|p: int| 0 <= p < c2.len() && c2[p] == a;
        assert(c2.to_set().contains(b));
        assert(c1.contains(b));
        let q = choose|q: int| 0 <= q < c1.len() && c1[q] == b;
        if p > 0 {
            assert(precedes(keys, c2[0], c2[p], desc));
            if q == 0 {
                assert(false);
            } else {
                assert(precedes(keys, c1[0], c1[q], desc));
                assert(false);
            }
        }
        assert(a == b);
        let t1 = c1.drop_first();
        let t2 = c2.drop_first();
        assert(sorted_by_key(keys, t1, desc)) by {
            assert forall|i: int, j: int| 0 <= i < j < t1.len() implies precedes(keys, #[trigger] t1[i], #[trigger] t1[j], desc) by {
                assert(t1[i] == c1[i + 1] && t1[j] == c1[j + 1]);
            }
        }
        assert(sorted_by_key(keys, t2, desc)) by {
            assert forall|i: int, j: int| 0 <= i < j < t2.len() implies precedes(keys, #[trigger] t2[i], #[trigger] t2[j], desc) by {
                assert(t2[i] == c2[i + 1] && t2[j] == c2[j + 1]);
            }
        }
        assert(t1.to_set() =~= t2.to_set()) by {
            assert forall|x: usize| t1.contains(x) implies t2.contains(x) by {
                let i = choose|i: int| 0 <= i < t1.len() && t1[i] == x;
                assert(c1[i + 1] == x);
                assert(precedes(keys, c1[0], c1[i + 1], desc));
                assert(x != a);
                assert(c1.to_set().contains(x));
                assert(c2.contains(x));
                let j = choose|j: int| 0 <= j < c2.len() && c2[j] == x;
                assert(j != 0);
                assert(t2[j - 1] == x);
            }
            assert forall|x: usize| t2.contains(x) implies t1.contains(x) by {
                let i = choose|i: int| 0 <= i < t2.len() && t2[i] == x;
                assert(c2[i + 1] == x);
                assert(precedes(keys, c2[0], c2[i + 1], desc));
                assert(x != b);
                assert(c2.to_set().contains(x));
                assert(c1.contains(x));
                let j = choose|j: int| 0 <= j < c1.len() && c1[j] == x;
                assert(j != 0);
                assert(t1[j - 1] == x);
            }
        }
        lemma_sorted_unique(keys, t1, t2, desc);
        assert(c1 =~= seq![a] + t1);
        assert(c2 =~= seq![b] + t2);
    }
}

/// `c` with `x` inserted before the first index that `x` precedes.
pub open spec fn insert_sorted(keys: Seq<u64>, c: Seq<usize>, x: usize, desc: bool) -> Seq<usize>
    decreases c.len(),
{
    if c.len() == 0 {
        seq![x]
    } else if precedes(keys, x, c[0], desc) {
        seq![x] + c
    } else {
        seq![c[0]] + insert_sorted(keys, c.drop_first(), x, desc)
    }
}

/// Inserting a new index into an order by key gives an order by key of
/// one more index.
pub proof fn lemma_insert_sorted(keys: Seq<u64>, c: Seq<usize>, x: usize, desc: bool)
    requires
        sorted_by_key(keys, c, desc),
        !c.contains(x),
        x < keys.len(),
        forall|i: int| 0 <= i < c.len() ==> c[i] < keys.len(),
    ensures
        sorted_by_key(keys, insert_sorted(keys, c, x, desc), desc),
        insert_sorted(keys, c, x, desc).to_set() == c.to_set().insert(x),
        forall|i: int| 0 <= i < insert_sorted(keys, c, x, desc).len() ==> insert_sorted(keys, c, x, desc)[i] < keys.len(),
    decreases c.len(),
{
    let r = insert_sorted(keys, c, x, desc);
    if c.len() == 0 {
        assert(r.to_set() =~= c.to_set().insert(x)) by {
            assert(r[0] == x);
        }
    } else if precedes(keys, x, c[0], desc) {
        assert forall|i: int, j: int| 0 <= i < j < r.len() implies precedes(keys, #[trigger] r[i], #[trigger] r[j], desc) by {
            if i == 0 {
                assert(r[j] == c[j - 1]);
                if j > 1 {
                    assert(precedes(keys, c[0], c[j - 1], desc));
                }
            } else {
                assert(r[i] == c[i - 1] && r[j] == c[j - 1]);
            }
        }
        assert(r.to_set() =~= c.to_set().insert(x)) by {
            assert forall|y: usize| r.contains(y) <==> c.contains(y) || y == x by {
                if r.contains(y) {
                    let k = choose|k: int| 0 <= k < r.len() && r[k] == y;
                    if k > 0 {
                        assert(c[k - 1] == y);
                    }
                }
                if c.contains(y) {
                    let k = choose|k: int| 0 <= k < c.len() && c[k] == y;
                    assert(r[k + 1] == y);
                }
                if y == x {
                    assert(r[0] == x);
                }
            }
        }
        assert forall|i: int| 0 <= i < r.len() implies r[i] < keys.len() by {
            if i > 0 {
                assert(r[i] == c[i - 1]);
            }
        }
    } else {
        let t = c.drop_first();
        assert(sorted_by_key(keys, t, desc)) by {
            assert forall|i: int, j: int| 0 <= i < j < t.len() implies precedes(keys, #[trigger] t[i], #[trigger] t[j], desc) by {
                assert(t[i] == c[i + 1] && t[j] == c[j + 1]);
            }
        }
        assert(!t.contains(x)) by {
            if t.contains(x) {
                let k = choose|k: int| 0 <= k < t.len() && t[k] == x;
                assert(c[k + 1] == x);
            }
        }
        lemma_insert_sorted(keys, t, x, desc);
        let rt = insert_sorted(keys, t, x, desc);
        assert(r == seq![c[0]] + rt);
        assert(c[0] != x);
        assert(precedes(keys, c[0], x, desc));
        assert forall|i: int, j: int| 0 <= i < j < r.len() implies precedes(keys, #[trigger] r[i], #[trigger] r[j], desc) by {
            if i == 0 {
                assert(r[j] == rt[j - 1]);
                assert(rt.to_set().contains(rt[j - 1]));
                if rt[j - 1] != x {
                    assert(t.to_set().contains(rt[j - 1]));
                    let k = choose|k: int| 0 <= k < t.len() && t[k] == rt[j - 1];
                    assert(c[k + 1] == rt[j - 1]);
                }
            } else {
                assert(r[i] == rt[i - 1] && r[j] == rt[j - 1]);
            }
        }
        assert(r.to_set() =~= c.to_set().insert(x)) by {
            assert forall|y: usize| r.contains(y) <==> c.contains(y) || y == x by {
                if r.contains(y) {
                    let k = choose|k: int| 0 <= k < r.len() && r[k] == y;
                    if k > 0 {
                        assert(rt[k - 1] == y);
                        assert(rt.to_set().contains(y));
                        if y != x {
                            assert(t.to_set().contains(y));
                            let k2 = choose|k2: int| 0 <= k2 < t.len() && t[k2] == y;
                            assert(c[k2 + 1] == y);
                        }
                    }
                }
                if c.contains(y) {
                    let k = choose|k: int| 0 <= k < c.len() && c[k] == y;
                    if k > 0 {
                        assert(t[k - 1] == y);
                        assert(t.to_set().contains(y));
                        assert(rt.to_set().contains(y));
                        let k2 = choose|k2: int| 0 <= k2 < rt.len() && rt[k2] == y;
                        assert(r[k2 + 1] == y);
                    } else {
                        assert(r[0] == y);
                    }
                }
                if y == x {
                    assert(rt.to_set().contains(x));
                    let k2 = choose|k2: int| 0 <= k2 < rt.len() && rt[k2] == x;
                    assert(r[k2 + 1] == x);
                }
            }
        }
        assert forall|i: int| 0 <= i < r.len() implies r[i] < keys.len() by {
            if i > 0 {
                assert(r[i] == rt[i - 1]);
            }
        }
    }
}

/// The indices below `n` form a finite set of `n` elements (`n` at most
/// one more than `usize::MAX`).
pub proof fn lemma_indices_below_len(n: nat)
    requires
        n <= usize::MAX + 1,
    ensures
        Set::new(|x: usize| x < n).finite(),
        Set::new(|x: usize| x < n).len() == n,
    decreases n,
{
    if n == 0 {
        assert(Set::new(|x: usize| x < n) =~= Set::<usize>::empty());
    } else {
        lemma_indices_below_len((n - 1) as nat);
        assert(Set::new(|x: usize| x < n) =~= Set::new(|x: usize| x < n - 1).insert((n - 1) as usize));
    }
}

/// A sequence of distinct indices below `n` has at most `n` elements.
pub proof fn lemma_distinct_indices_len(s: Seq<usize>, n: nat)
    requires
        s.no_duplicates(),
        forall|i: int| 0 <= i < s.len() ==> s[i] < n,
        n <= usize::MAX + 1,
    ensures
        s.len() <= n,
{
    lemma_indices_below_len(n);
    s.unique_seq_to_set();
    assert(s.to_set().subset_of(Set::new(|x: usize| x < n)));
    vstd::set_lib::lemma_len_subset(s.to_set(), Set::new(|x: usize| x < n));
}

fn key_strictly_before(keys: &Vec<u64>, a: usize, b: usize, desc: bool) -> (r: bool)
    requires
        a < keys@.len(),
        b < keys@.len(),
    ensures
        r == (if desc { keys@[a as int] > keys@[b as int] } else { keys@[a as int] < keys@[b as int] }),
{
    if desc {
        keys[a] > keys[b]
    } else {
        keys[a] < keys[b]
    }
}

/// Insert `x`, larger than every index already in `c`, at its place in the
/// order.
pub fn insert_by_key(c: &mut Vec<usize>, keys: &Vec<u64>, x: usize, desc: bool)
    requires
        sorted_by_key(keys@, old(c)@, desc),
        forall|i: int| 0 <= i < old(c)@.len() ==> old(c)@[i] < x,
        x < keys@.len(),
        forall|i: int| 0 <= i < old(c)@.len() ==> old(c)@[i] < keys@.len(),
    ensures
        sorted_by_key(keys@, final(c)@, desc),
        final(c)@.to_set() == old(c)@.to_set().insert(x),
        final(c)@.len() == old(c)@.len() + 1,
        forall|i: int| 0 <= i < final(c)@.len() ==> final(c)@[i] <= x,
{
    let n = c.len();
    let mut p: usize = 0;
    while p < n && !key_strictly_before(keys, x, c[p], desc)
        invariant
            n == c@.len(),
            c@ == old(c)@,
            0 <= p <= n,
            x < keys@.len(),
            forall|i: int| 0 <= i < n ==> c@[i] < x,
            forall|i: int| 0 <= i < n ==> c@[i] < keys@.len(),
            forall|i: int| 0 <= i < p ==> precedes(keys@, #[trigger] c@[i], x, desc),
        decreases n - p,
    {
        proof {
            assert(c@[p as int] < x);
        }
        p += 1;
    }
    proof {
        if p < n {
            assert forall|i: int| p <= i < n implies precedes(keys@, x, #[trigger] c@[i], desc) by {
                if i > p {
                    assert(precedes(keys@, c@[p as int], c@[i], desc));
                }
            }
        }
    }
    let ghost before = c@;
    c.insert(p, x);
    proof {
        let after = c@;
        assert(after =~= before.insert(p as int, x));
        assert forall|i: int, j: int| 0 <= i < j < after.len() implies precedes(keys@, #[trigger] after[i], #[trigger] after[j], desc) by {
            if j < p {
                assert(after[i] == before[i] && after[j] == before[j]);
            } else if j == p {
                assert(after[i] == before[i]);
            } else if i == p {
                assert(after[j] == before[j - 1]);
            } else if i < p {
                assert(after[i] == before[i] && after[j] == before[j - 1]);
                assert(before[i] < x);
            } else {
                assert(after[i] == before[i - 1] && after[j] == before[j - 1]);
            }
        }
        assert(after.to_set() =~= before.to_set().insert(x)) by {
            assert forall|y: usize| after.contains(y) <==> before.contains(y) || y == x by {
                if after.contains(y) {
                    let k = choose|k: int| 0 <= k < after.len() && after[k] == y;
                    if k < p {
                        assert(before[k] == y);
                    } else if k > p {
                        assert(before[k - 1] == y);
                    }
                }
                if before.contains(y) {
                    let k = choose|k: int| 0 <= k < before.len() && before[k] == y;
                    if k < p {
                        assert(after[k] == y);
                    } else {
                        assert(after[k + 1] == y);
                    }
                }
                if y == x {
                    assert(after[p as int] == x);
                }
            }
        }
        assert forall|i: int| 0 <= i < after.len() implies after[i] <= x by {
            if i < p {
                assert(after[i] == before[i]);
            } else if i > p {
                assert(after[i] == before[i - 1]);
            }
        }
    }
}

} // verus!
