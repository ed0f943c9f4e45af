//! Disjoint sets over the indices `0..n`, with path compression.
use vstd::prelude::*;

verus! {

/// A union-find forest. `classes()` names, for each index, the root of its
/// tree; two indices are in the same set exactly when their classes agree.
pub struct DisjointSets {
    parent: Vec<usize>,
    /// The root each index leads to.
    rep: Ghost<Seq<int>>,
    /// A height bound that strictly grows towards the root.
    level: Ghost<Seq<int>>,
    /// A bound on every level.
    top: Ghost<int>,
}

impl DisjointSets {
    /// The number of indices.
    pub closed spec fn size(&self) -> nat {
        self.parent@.len()
    }

    /// The class (root) of each index.
    pub closed spec fn classes(&self) -> Seq<int> {
        self.rep@
    }

    /// The forest is consistent with its classes.
    pub closed spec fn wf(&self) -> bool {
        let n = self.parent@.len();
        &&& self.rep@.len() == n
        &&& self.level@.len() == n
        &&& forall|i: int|
            #![trigger self.parent@[i]]
            #![trigger self.rep@[i]]
            0 <= i < n ==> {
                let p = self.parent@[i] as int;
                &&& 0 <= p < n
                &&& 0 <= self.rep@[i] < n
                &&& 0 <= self.level@[i] <= self.top@
                &&& self.parent@[self.rep@[i]] as int == self.rep@[i]
                &&& (p == i ==> self.rep@[i] == i)
                &&& (p != i ==> self.rep@[p] == self.rep@[i] && self.level@[p] > self.level@[i]
                    && self.level@[self.rep@[i]] > self.level@[i])
            }
    }

    /// Classes name indices, and the class of a class is itself.
    pub proof fn lemma_classes(&self)
        requires
            self.wf(),
        ensures
            self.classes().len() == self.size(),
            forall|i: int|
                0 <= i < self.size() ==> 0 <= #[trigger] self.classes()[i] < self.size()
                    && self.classes()[self.classes()[i]] == self.classes()[i],
    {
        assert forall|i: int| 0 <= i < self.size() implies 0 <= #[trigger] self.classes()[i]
            < self.size() && self.classes()[self.classes()[i]] == self.classes()[i] by {
            let r = self.rep@[i];
            assert(self.parent@[r] as int == r);
        }
    }

    /// `n` singleton sets.
    pub fn new(n: usize) -> (s: Self)
        ensures
            s.wf(),
            s.size() == n,
            s.classes() == Seq::new(n as nat, |i: int| i),
    {
        let mut parent: Vec<usize> = Vec::new();
        let mut i: usize = 0;
        while i < n
            invariant
                i <= n,
                parent@.len() == i,
                forall|j: int| 0 <= j < i ==> parent@[j] as int == j,
            decreases n - i,
        {
            parent.push(i);
            i = i + 1;
        }
        DisjointSets {
            parent,
            rep: Ghost(Seq::new(n as nat, |i: int| i)),
            level: Ghost(Seq::new(n as nat, |i: int| 0int)),
            top: Ghost(0int),
        }
    }

    /// The class of `x`; compresses the path from `x` to its root.
    pub fn find(&mut self, x: usize) -> (r: usize)
        requires
            old(self).wf(),
            x < old(self).size(),
        ensures
            final(self).wf(),
            final(self).size() == old(self).size(),
            final(self).classes() == old(self).classes(),
            r as int == old(self).classes()[x as int],
    {
        let ghost rep0 = self.rep@;
        let mut root: usize = x;
        while self.parent[root] != root
            invariant
                self.wf(),
                root < self.parent@.len(),
                self.rep@[root as int] == self.rep@[x as int],
            decreases self.top@ - self.level@[root as int],
        {
            root = self.parent[root];
        }
        let n: usize = self.parent.len();
        let mut y: usize = x;
        while self.parent[y] != y
            invariant
                self.wf(),
                self.parent@.len() == n,
                self.rep@ == rep0,
                y < n,
                root < n,
                self.parent@[root as int] == root,
                rep0[x as int] == root as int,
                rep0[y as int] == root as int,
            decreases self.top@ - self.level@[y as int],
        {
            let next: usize = self.parent[y];
            assert(self.parent@[next as int] == self.parent@[next as int]);
            self.parent.set(y, root);
            assert forall|i: int| 0 <= i < n implies self.parent@[self.rep@[i]] as int
                == self.rep@[i] by {
                assert(self.rep@[i] == self.rep@[i]);
            }
            y = next;
        }
        root
    }

    /// Merges the set with class `a` into the set with class `b`.
    pub fn union(&mut self, a: usize, b: usize)
        requires
            old(self).wf(),
            a < old(self).size(),
            b < old(self).size(),
            old(self).classes()[a as int] == a,
            old(self).classes()[b as int] == b,
            a != b,
        ensures
            final(self).wf(),
            final(self).size() == old(self).size(),
            final(self).classes() == Seq::new(
                old(self).size(),
                |i: int|
                    if old(self).classes()[i] == a {
                        b as int
                    } else {
                        old(self).classes()[i]
                    },
            ),
    {
        let ghost n = self.parent@.len();
        let ghost rep0 = self.rep@;
        let ghost level0 = self.level@;
        let ghost top0 = self.top@;
        assert(self.parent@[a as int] == a);
        assert(self.parent@[b as int] == b);
        self.parent.set(a, b);
        let ghost new_level = if level0[b as int] > level0[a as int] + 1 {
            level0[b as int]
        } else {
            level0[a as int] + 1
        };
        self.rep = Ghost(Seq::new(n, |i: int| if rep0[i] == a { b as int } else { rep0[i] }));
        self.level = Ghost(level0.update(b as int, new_level));
        self.top = Ghost(if top0 > new_level { top0 } else { new_level });
        assert forall|i: int| #![trigger self.parent@[i]] 0 <= i < n implies {
            let p = self.parent@[i] as int;
            &&& 0 <= p < n
            &&& 0 <= self.rep@[i] < n
            &&& 0 <= self.level@[i] <= self.top@
            &&& self.parent@[self.rep@[i]] as int == self.rep@[i]
            &&& (p == i ==> self.rep@[i] == i)
            &&& (p != i ==> self.rep@[p] == self.rep@[i] && self.level@[p] > self.level@[i]
                && self.level@[self.rep@[i]] > self.level@[i])
        } by {
            assert(rep0[i] == rep0[i]);
            let p0 = self.parent@[i] as int;
            if i != a as int {
                assert(self.parent@[i] == old(self).parent@[i]);
            }
            assert(old(self).parent@[i] == old(self).parent@[i]);
            assert(rep0[rep0[i]] == rep0[rep0[i]]);
        }
    }
}

} // verus!
