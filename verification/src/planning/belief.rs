//! Belief names and sets of them.

use vstd::prelude::*;

verus! {

/// Unique identifier for a belief.
pub type BeliefId = String;

/// A set of belief names. Each name occurs at most once.
#[derive(Debug)]
pub struct BeliefIdSet {
    items: Vec<BeliefId>,
}

impl BeliefIdSet {
    /// The names in insertion order.
    pub closed spec fn names(&self) -> Seq<Seq<char>> {
        self.items@.map_values(|s: String| s@)
    }

    #[verifier::type_invariant]
    closed spec fn names_distinct(&self) -> bool {
        self.names().no_duplicates()
    }

    /// The view is the set of the names.
    pub proof fn lemma_view_is_names(&self)
        ensures
            self@ == self.names().to_set(),
            forall|x: Seq<char>| self@.contains(x) <==> self.names().contains(x),
    {
    }

    /// An empty set.
    pub fn new() -> (s: Self)
        ensures
            s@ == Set::<Seq<char>>::empty(),
            s.names() == Seq::<Seq<char>>::empty(),
    {
        let s = BeliefIdSet { items: Vec::new() };
        assert(s.names() =~= Seq::<Seq<char>>::empty());
        assert(s@ =~= Set::<Seq<char>>::empty());
        s
    }

    /// Number of names.
    pub fn len(&self) -> (n: usize)
        ensures
            n == self.names().len(),
            n == self@.len(),
            self.names().no_duplicates(),
    {
        proof {
            use_type_invariant(self);
            self.names().unique_seq_to_set();
        }
        self.items.len()
    }

    /// True when the set holds no name.
    pub fn is_empty(&self) -> (b: bool)
        ensures
            b == (self@ == Set::<Seq<char>>::empty()),
            b == (self.names().len() == 0),
    {
        proof {
            if self.names().len() > 0 {
                assert(self.names().contains(self.names()[0]));
                assert(self@.contains(self.names()[0]));
            } else {
                assert(self@ =~= Set::<Seq<char>>::empty());
            }
        }
        self.items.len() == 0
    }

    /// The name at position `i` of the insertion order.
    pub fn get(&self, i: usize) -> (name: &BeliefId)
        requires
            i < self.names().len(),
        ensures
            name@ == self.names()[i as int],
            self@.contains(name@),
    {
        proof {
            assert(self.names().contains(self.names()[i as int]));
        }
        &self.items[i]
    }

    /// Whether `name` is in the set.
    pub fn contains(&self, name: &BeliefId) -> (b: bool)
        ensures
            b == self@.contains(name@),
    {
        let n = self.items.len();
        let mut i: usize = 0;
        while i < n
            invariant
                n == self.items@.len(),
                0 <= i <= n,
                forall|j: int| 0 <= j < i ==> self.names()[j] != name@,
            decreases n - i,
        {
            if self.items[i] == *name {
                proof {
                    assert(self.names().contains(self.names()[i as int]));
                }
                return true;
            }
            i += 1;
        }
        proof {
            if self.names().contains(name@) {
                let k = choose|k: int| 0 <= k < self.names().len() && self.names()[k] == name@;
                assert(self.names()[k] == name@);
            }
        }
        false
    }

    /// Whether every name of this set is also in `other`.
    pub fn is_subset_of(&self, other: &BeliefIdSet) -> (b: bool)
        ensures
            b == self@.subset_of(other@),
    {
        let n = self.items.len();
        let mut i: usize = 0;
        while i < n
            invariant
                n == self.names().len(),
                0 <= i <= n,
                forall|j: int| 0 <= j < i ==> other@.contains(#[trigger] self.names()[j]),
            decreases n - i,
        {
            if !other.contains(&self.items[i]) {
                proof {
                    assert(self.names().contains(self.names()[i as int]));
                }
                return false;
            }
            i += 1;
        }
        proof {
            assert forall|x: Seq<char>| self@.contains(x) implies other@.contains(x) by {
                let k = choose|k: int| 0 <= k < self.names().len() && self.names()[k] == x;
                assert(other@.contains(self.names()[k]));
            }
        }
        true
    }

    /// Whether some name is in both sets.
    pub fn intersects(&self, other: &BeliefIdSet) -> (b: bool)
        ensures
            b == exists|x: Seq<char>| self@.contains(x) && other@.contains(x),
    {
        let n = self.items.len();
        let mut i: usize = 0;
        while i < n
            invariant
                n == self.names().len(),
                0 <= i <= n,
                forall|j: int| 0 <= j < i ==> !other@.contains(#[trigger] self.names()[j]),
            decreases n - i,
        {
            if other.contains(&self.items[i]) {
                proof {
                    assert(self.names().contains(self.names()[i as int]));
                    assert(self@.contains(self.names()[i as int]));
                }
                return true;
            }
            i += 1;
        }
        proof {
            assert forall|x: Seq<char>| self@.contains(x) implies !other@.contains(x) by {
                let k = choose|k: int| 0 <= k < self.names().len() && self.names()[k] == x;
                assert(!other@.contains(self.names()[k]));
            }
        }
        false
    }

    /// The names of this set that are not in `other`.
    pub fn difference(&self, other: &BeliefIdSet) -> (r: BeliefIdSet)
        ensures
            r@ == self@.difference(other@),
    {
        let mut r = BeliefIdSet::new();
        let n = self.items.len();
        let mut i: usize = 0;
        while i < n
            invariant
                n == self.names().len(),
                0 <= i <= n,
                r@ == self.names().take(i as int).to_set().difference(other@),
            decreases n - i,
        {
            let ghost before = r@;
            if !other.contains(&self.items[i]) {
                r.insert(self.items[i].clone());
            }
            proof {
                assert(self.names().take(i + 1) =~= self.names().take(i as int).push(self.names()[i as int]));
                assert(r@ =~= self.names().take(i + 1).to_set().difference(other@)) by {
                    assert forall|x: Seq<char>| #[trigger] self.names().take(i + 1).contains(x)
                        <==> self.names().take(i as int).contains(x) || x == self.names()[i as int] by {
                        let t = self.names().take(i as int);
                        if t.push(self.names()[i as int]).contains(x) && x != self.names()[i as int] {
                            let k = choose|k: int| 0 <= k < t.push(self.names()[i as int]).len() && t.push(self.names()[i as int])[k] == x;
                            assert(t[k] == x);
                        }
                        if t.contains(x) {
                            let k = choose|k: int| 0 <= k < t.len() && t[k] == x;
                            assert(t.push(self.names()[i as int])[k] == x);
                        }
                        assert(t.push(self.names()[i as int])[i as int] == self.names()[i as int]);
                    }
                }
            }
            i += 1;
        }
        proof {
            assert(self.names().take(n as int) =~= self.names());
        }
        r
    }

    /// The names of this set that are also in `other`.
    pub fn intersection(&self, other: &BeliefIdSet) -> (r: BeliefIdSet)
        ensures
            r@ == self@.intersect(other@),
    {
        let d = self.difference(other);
        let r = self.difference(&d);
        proof {
            assert(r@ =~= self@.intersect(other@));
        }
        r
    }

    /// Whether every name of this set is in `a` or in `b`.
    pub fn is_covered_by(&self, a: &BeliefIdSet, b: &BeliefIdSet) -> (r: bool)
        ensures
            r == self@.subset_of(a@.union(b@)),
    {
        let n = self.items.len();
        let mut i: usize = 0;
        while i < n
            invariant
                n == self.names().len(),
                0 <= i <= n,
                forall|j: int| 0 <= j < i ==> a@.union(b@).contains(#[trigger] self.names()[j]),
            decreases n - i,
        {
            if !a.contains(&self.items[i]) && !b.contains(&self.items[i]) {
                proof {
                    assert(self.names().contains(self.names()[i as int]));
                    assert(self@.contains(self.names()[i as int]));
                    assert(!a@.union(b@).contains(self.names()[i as int]));
                }
                return false;
            }
            i += 1;
        }
        proof {
            assert forall|x: Seq<char>| self@.contains(x) implies a@.union(b@).contains(x) by {
                let k = choose|k: int| 0 <= k < self.names().len() && self.names()[k] == x;
                assert(a@.union(b@).contains(self.names()[k]));
            }
        }
        true
    }

    /// Add every name of `other`.
    pub fn insert_all(&mut self, other: &BeliefIdSet)
        ensures
            final(self)@ == old(self)@.union(other@),
    {
        let n = other.items.len();
        let mut i: usize = 0;
        while i < n
            invariant
                n == other.names().len(),
                0 <= i <= n,
                self@ == old(self)@.union(other.names().take(i as int).to_set()),
            decreases n - i,
        {
            self.insert(other.items[i].clone());
            proof {
                let t = other.names().take(i as int);
                assert(other.names().take(i + 1) =~= t.push(other.names()[i as int]));
                assert forall|x: Seq<char>| #[trigger] t.push(other.names()[i as int]).contains(x)
                    <==> t.contains(x) || x == other.names()[i as int] by {
                    if t.push(other.names()[i as int]).contains(x) && x != other.names()[i as int] {
                        let k = choose|k: int| 0 <= k < t.push(other.names()[i as int]).len() && t.push(other.names()[i as int])[k] == x;
                        assert(t[k] == x);
                    }
                    if t.contains(x) {
                        let k = choose|k: int| 0 <= k < t.len() && t[k] == x;
                        assert(t.push(other.names()[i as int])[k] == x);
                    }
                    assert(t.push(other.names()[i as int])[i as int] == other.names()[i as int]);
                }
                assert(self@ =~= old(self)@.union(other.names().take(i + 1).to_set()));
            }
            i += 1;
        }
        proof {
            assert(other.names().take(n as int) =~= other.names());
        }
    }

    /// Add `name`; returns whether it was absent before.
    pub fn insert(&mut self, name: BeliefId) -> (added: bool)
        ensures
            final(self)@ == old(self)@.insert(name@),
            added == !old(self)@.contains(name@),
    {
        proof {
            use_type_invariant(&*self);
        }
        if self.contains(&name) {
            return false;
        }
        let ghost before = self.names();
        let mut items: Vec<BeliefId> = Vec::new();
        std::mem::swap(&mut items, &mut self.items);
        items.push(name);
        proof {
            assert(items@.map_values(|s: String| s@) =~= before.push(name@));
        }
        std::mem::swap(&mut items, &mut self.items);
        proof {
            assert(self.names() =~= before.push(name@));
            assert(self@ =~= old(self)@.insert(name@)) by {
                assert forall|x: Seq<char>| self@.contains(x) <==> old(self)@.contains(x) || x == name@ by {
                    if before.push(name@).contains(x) && x != name@ {
                        let k = choose|k: int| 0 <= k < before.push(name@).len() && before.push(name@)[k] == x;
                        assert(before[k] == x);
                    }
                    if before.contains(x) {
                        let k = choose|k: int| 0 <= k < before.len() && before[k] == x;
                        assert(before.push(name@)[k] == x);
                    }
                    assert(before.push(name@)[before.len() as int] == name@);
                }
            }
        }
        true
    }
}

impl Clone for BeliefIdSet {
    fn clone(&self) -> (res: Self)
        ensures
            res@ == self@,
            res.names() == self.names(),
    {
        proof {
            use_type_invariant(self);
        }
        let mut items: Vec<BeliefId> = Vec::new();
        let n = self.items.len();
        let mut i: usize = 0;
        while i < n
            invariant
                n == self.items@.len(),
                0 <= i <= n,
                items@.len() == i,
                forall|j: int| 0 <= j < i ==> items@[j]@ == self.items@[j]@,
            decreases n - i,
        {
            items.push(self.items[i].clone());
            i += 1;
        }
        proof {
            assert(items@.map_values(|s: String| s@) =~= self.names());
        }
        let res = BeliefIdSet { items };
        res
    }
}

/// The names of a list of strings.
pub open spec fn names_of(v: Seq<String>) -> Seq<Seq<char>> {
    v.map_values(|s: String| s@)
}

/// A copy of a list of names.
pub fn copy_names(v: &Vec<String>) -> (res: Vec<String>)
    ensures
        names_of(res@) == names_of(v@),
{
    let mut out: Vec<String> = Vec::new();
    let n = v.len();
    let mut i: usize = 0;
    while i < n
        invariant
            n == v@.len(),
            0 <= i <= n,
            out@.len() == i,
            forall|j: int| 0 <= j < i ==> out@[j]@ == v@[j]@,
        decreases n - i,
    {
        out.push(v[i].clone());
        i += 1;
    }
    assert(names_of(out@) =~= names_of(v@));
    out
}

impl View for BeliefIdSet {
    type V = Set<Seq<char>>;

    closed spec fn view(&self) -> Set<Seq<char>> {
        self.names().to_set()
    }
}

} // verus!
