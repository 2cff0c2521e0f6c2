//! Disjoint sets over the indices `0 .. n`, used by the matcher to form
//! connected components of the similarity graph.
//!
//! Every element carries the index of its class representative directly, so
//! a lookup is one array read and `union` relabels the smaller-indexed view
//! of the merged class eagerly.  The cost is linear per merge, which is fine
//! next to the quadratic pair scoring that drives it, and the semantics of
//! every operation can be stated exactly over the label sequence.

use vstd::prelude::*;

verus! {

pub struct UnionFind {
    labels: Vec<usize>,
}

impl UnionFind {
    /// The label (class representative) of element `i`.
    pub closed spec fn label_of(self, i: int) -> int {
        self.labels@[i] as int
    }

    /// Number of elements.
    pub closed spec fn len(self) -> nat {
        self.labels@.len()
    }

    /// Elements `i` and `j` are in the same class.
    pub open spec fn same(self, i: int, j: int) -> bool {
        self.label_of(i) == self.label_of(j)
    }

    /// Labels point at class members that carry their own label.
    pub closed spec fn wf(self) -> bool {
        forall|i: int| 0 <= i < self.labels@.len() ==>
            0 <= #[trigger] self.labels@[i] < self.labels@.len()
            && self.labels@[self.labels@[i] as int] == self.labels@[i]
    }

    pub fn new(n: usize) -> (uf: UnionFind)
        ensures
            uf.wf(),
            uf.len() == n,
            forall|i: int| 0 <= i < n ==> uf.label_of(i) == i,
    {
        let mut labels: Vec<usize> = Vec::new();
        let mut i: usize = 0;
        while i < n
            invariant
                i <= n,
                labels@.len() == i,
                forall|k: int| 0 <= k < i ==> labels@[k] == k,
            decreases n - i,
        {
            labels.push(i);
            i = i + 1;
        }
        UnionFind { labels }
    }

    pub fn find(&self, x: usize) -> (r: usize)
        requires
            self.wf(),
            x < self.len(),
        ensures
            r == self.label_of(x as int),
    {
        self.labels[x]
    }

    /// Merge the classes of `x` and `y`: afterwards two elements share a
    /// class exactly when they already did, or when one sat with `x` and
    /// the other with `y`.
    pub fn union(&mut self, x: usize, y: usize)
        requires
            old(self).wf(),
            x < old(self).len(),
            y < old(self).len(),
        ensures
            final(self).wf(),
            final(self).len() == old(self).len(),
            forall|i: int, j: int|
                0 <= i < final(self).len() && 0 <= j < final(self).len() ==>
                (final(self).same(i, j) <==> (old(self).same(i, j)
                    || (old(self).same(i, x as int) && old(self).same(j, y as int))
                    || (old(self).same(i, y as int) && old(self).same(j, x as int)))),
    {
        let lx = self.labels[x];
        let ly = self.labels[y];
        if lx == ly {
            return;
        }
        let n = self.labels.len();
        let mut i: usize = 0;
        let ghost orig = self.labels@;
        while i < n
            invariant
                i <= n,
                n == orig.len(),
                self.labels@.len() == orig.len(),
                lx < orig.len(),
                ly < orig.len(),
                lx == orig[x as int],
                ly == orig[y as int],
                x < orig.len(),
                y < orig.len(),
                forall|k: int| 0 <= k < orig.len() ==>
                    0 <= #[trigger] orig[k] < orig.len() && orig[orig[k] as int] == orig[k],
                forall|k: int| 0 <= k < i ==>
                    #[trigger] self.labels@[k] == (if orig[k] == ly { lx as usize } else { orig[k] }),
                forall|k: int| i <= k < orig.len() ==> #[trigger] self.labels@[k] == orig[k],
            decreases n - i,
        {
            if self.labels[i] == ly {
                self.labels.set(i, lx);
            }
            i = i + 1;
        }
        assert forall|k: int| 0 <= k < self.labels@.len() implies
            #[trigger] self.labels@[k] == (if orig[k] == ly { lx as usize } else { orig[k] }) by {
        }
    }

    /// Element `i` occurs in some inner list of `r`.
    pub open spec fn listed(r: Seq<Vec<usize>>, i: int) -> bool {
        exists|g: int, k: int|
            0 <= g < r.len() && 0 <= k < r[g]@.len() && r[g]@[k] == i
    }

    /// The classes as explicit member lists: each inner vector holds, in
    /// ascending order, the elements of one class, and classes appear in
    /// the order of their smallest member.
    pub fn groups(&self) -> (r: Vec<Vec<usize>>)
        requires
            self.wf(),
        ensures
            // every listed element is a real one, inner lists ascend
            forall|g: int, k: int| 0 <= g < r@.len() && 0 <= k < r@[g]@.len() ==>
                #[trigger] r@[g]@[k] < self.len(),
            forall|g: int, k1: int, k2: int|
                0 <= g < r@.len() && 0 <= k1 < k2 < r@[g]@.len() ==>
                r@[g]@[k1] < r@[g]@[k2],
            // no empty class
            forall|g: int| 0 <= g < r@.len() ==> #[trigger] r@[g]@.len() > 0,
            // membership in one list coincides with sharing a class
            forall|g: int, k1: int, k2: int|
                0 <= g < r@.len() && 0 <= k1 < r@[g]@.len() && 0 <= k2 < r@[g]@.len() ==>
                self.same(#[trigger] r@[g]@[k1] as int, #[trigger] r@[g]@[k2] as int),
            forall|g1: int, g2: int, k1: int, k2: int|
                0 <= g1 < r@.len() && 0 <= g2 < r@.len() && g1 != g2
                && 0 <= k1 < r@[g1]@.len() && 0 <= k2 < r@[g2]@.len() ==>
                !self.same(r@[g1]@[k1] as int, r@[g2]@[k2] as int),
            // every element appears somewhere
            forall|i: int| 0 <= i < self.len() ==> #[trigger] UnionFind::listed(r@, i),
    {
        broadcast use vstd::seq_lib::group_seq_properties;

        let n = self.labels.len();
        // representatives in order of their smallest member
        let mut reps: Vec<usize> = Vec::new();
        let mut i: usize = 0;
        while i < n
            invariant
                self.wf(),
                i <= n,
                n == self.len(),
                forall|g: int| 0 <= g < reps@.len() ==>
                    #[trigger] reps@[g] < n && self.label_of(reps@[g] as int) == reps@[g],
                forall|g1: int, g2: int| 0 <= g1 < g2 < reps@.len() ==> reps@[g1] != reps@[g2],
                forall|j: int| 0 <= j < i ==> reps@.contains(#[trigger] self.labels@[j]),
            decreases n - i,
        {
            let root = self.labels[i];
            let m = reps.len();
            let mut g: usize = 0;
            while g < m && reps[g] != root
                invariant
                    m == reps@.len(),
                    g <= m,
                    forall|h: int| 0 <= h < g ==> reps@[h] != root,
                decreases m - g,
            {
                g = g + 1;
            }
            let ghost reps_before = reps@;
            if g == m {
                reps.push(root);
            }
            assert forall|j: int| 0 <= j <= i implies
                reps@.contains(#[trigger] self.labels@[j]) by {
                if j < i {
                    let h = choose|h: int|
                        0 <= h < reps_before.len() && reps_before[h] == self.labels@[j];
                    assert(reps@[h] == self.labels@[j]);
                } else {
                    assert(reps@[g as int] == root);
                }
            }
            i = i + 1;
        }
        // members of each representative's class, ascending
        let mut r: Vec<Vec<usize>> = Vec::new();
        let mut g: usize = 0;
        let m = reps.len();
        while g < m
            invariant
                self.wf(),
                m == reps@.len(),
                g <= m,
                n == self.len(),
                r@.len() == g,
                forall|h: int| 0 <= h < reps@.len() ==>
                    #[trigger] reps@[h] < n && self.label_of(reps@[h] as int) == reps@[h],
                forall|h1: int, h2: int| 0 <= h1 < h2 < reps@.len() ==> reps@[h1] != reps@[h2],
                forall|j: int| 0 <= j < n ==> reps@.contains(#[trigger] self.labels@[j]),
                forall|h: int, k: int| 0 <= h < g && 0 <= k < r@[h]@.len() ==>
                    #[trigger] r@[h]@[k] < n
                    && self.label_of(r@[h]@[k] as int) == reps@[h],
                forall|h: int, k1: int, k2: int|
                    0 <= h < g && 0 <= k1 < k2 < r@[h]@.len() ==>
                    r@[h]@[k1] < r@[h]@[k2],
                forall|h: int| 0 <= h < g ==> #[trigger] r@[h]@.len() > 0,
                forall|h: int, j: int|
                    #![trigger r@[h]@.contains(j as usize)]
                    0 <= h < g && 0 <= j < n && self.labels@[j] == reps@[h] ==>
                    r@[h]@.contains(j as usize),
            decreases m - g,
        {
            let root = reps[g];
            let mut members: Vec<usize> = Vec::new();
            let mut j: usize = 0;
            while j < n
                invariant
                    self.wf(),
                    j <= n,
                    n == self.len(),
                    root < n,
                    self.label_of(root as int) == root,
                    forall|k: int| 0 <= k < members@.len() ==>
                        #[trigger] members@[k] < j
                        && self.label_of(members@[k] as int) == root,
                    forall|k1: int, k2: int| 0 <= k1 < k2 < members@.len() ==>
                        members@[k1] < members@[k2],
                    forall|p: int| 0 <= p < j && #[trigger] self.labels@[p] == root ==>
                        members@.contains(p as usize),
                decreases n - j,
            {
                let ghost members_before = members@;
                if self.labels[j] == root {
                    members.push(j);
                }
                assert forall|p: int| 0 <= p <= j && #[trigger] self.labels@[p] == root implies
                    members@.contains(p as usize) by {
                    if p < j {
                        let k = choose|k: int|
                            0 <= k < members_before.len() && members_before[k] == p as usize;
                        assert(members@[k] == p as usize);
                    } else {
                        assert(members@[members@.len() - 1] == j);
                    }
                }
                j = j + 1;
            }
            // the representative itself belongs to the class, so it is not empty
            assert(members@.contains(root));
            assert(members@.len() > 0);
            r.push(members);
            assert forall|h: int, j: int|
                #![trigger r@[h]@.contains(j as usize)]
                0 <= h < g + 1 && 0 <= j < n && self.labels@[j] == reps@[h] implies
                r@[h]@.contains(j as usize) by {
            }
            g = g + 1;
        }
        assert forall|i0: int| 0 <= i0 < self.len() implies
            #[trigger] UnionFind::listed(r@, i0) by {
            let lab = self.labels@[i0];
            assert(reps@.contains(lab));
            let h = choose|h: int| 0 <= h < reps@.len() && reps@[h] == lab;
            assert(r@[h]@.contains(i0 as usize));
            let k = choose|k: int| 0 <= k < r@[h]@.len() && r@[h]@[k] == i0 as usize;
            assert(0 <= h < r@.len() && 0 <= k < r@[h]@.len() && r@[h]@[k] == i0);
        }
        r
    }
}

} // verus!
