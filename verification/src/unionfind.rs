//! Union-find over atom indices, with iterative path compression. The
//! contracts characterize exactly which indices share a representative, so
//! cluster membership can be read off the final structure.

use vstd::prelude::*;

verus! {

/// Ultimate representative of `i`: follow parent pointers downwards until
/// they reach a fixpoint. Total: walks only strictly decreasing in-range
/// pointers, so it is well defined for every sequence.
pub open spec fn root_of(p: Seq<usize>, i: int) -> int
    decreases i,
{
    if 0 <= i < p.len() && p[i] < i {
        root_of(p, p[i] as int)
    } else {
        i
    }
}

/// Two indices belong to the same component.
pub open spec fn same_root(p: Seq<usize>, i: int, j: int) -> bool {
    root_of(p, i) == root_of(p, j)
}

/// Union-find structure for grouping atom indices.
pub struct UnionFind {
    parent: Vec<usize>,
}

impl View for UnionFind {
    type V = Seq<usize>;

    /// The parent array.
    closed spec fn view(&self) -> Seq<usize> {
        self.parent@
    }
}

impl UnionFind {
    /// Every parent pointer is in range and points downwards.
    pub open spec fn wf(self) -> bool {
        forall|k: int| 0 <= k < self@.len() ==> #[trigger] self@[k] <= k
    }
}

/// The representative of an in-range index is in range, is a fixpoint, and
/// never exceeds the index.
pub proof fn lemma_root_bounds(p: Seq<usize>, i: int)
    requires
        forall|k: int| 0 <= k < p.len() ==> #[trigger] p[k] <= k,
        0 <= i < p.len(),
    ensures
        0 <= root_of(p, i) <= i,
        p[root_of(p, i)] == root_of(p, i),
    decreases i,
{
    if p[i] < i {
        lemma_root_bounds(p, p[i] as int);
    }
}

/// A representative is its own representative.
pub proof fn lemma_root_idempotent(p: Seq<usize>, i: int)
    requires
        forall|k: int| 0 <= k < p.len() ==> #[trigger] p[k] <= k,
        0 <= i < p.len(),
    ensures
        root_of(p, root_of(p, i)) == root_of(p, i),
{
    lemma_root_bounds(p, i);
}

/// Pointing an index straight at its representative changes no
/// representative: this is what path compression does.
pub proof fn lemma_update_to_root(p: Seq<usize>, k: int, j: int)
    requires
        forall|m: int| 0 <= m < p.len() ==> #[trigger] p[m] <= m,
        0 <= k < p.len(),
    ensures
        root_of(p.update(k, root_of(p, k) as usize), j) == root_of(p, j),
    decreases j,
{
    let r = root_of(p, k);
    lemma_root_bounds(p, k);
    let p2 = p.update(k, r as usize);
    if 0 <= j < p.len() {
        if j == k {
            if r < k {
                assert(p2[j] == r);
                lemma_update_to_root(p, k, r);
            }
        } else {
            if p[j] < j {
                lemma_update_to_root(p, k, p[j] as int);
            }
        }
    }
}

/// Pointing one representative at a smaller one merges exactly the two
/// components: afterwards, an index answers to `lo` where it answered to
/// `hi`, and is otherwise unchanged.
pub proof fn lemma_update_root_merge(p: Seq<usize>, hi: int, lo: int, j: int)
    requires
        forall|m: int| 0 <= m < p.len() ==> #[trigger] p[m] <= m,
        0 <= lo < hi < p.len(),
        p[hi] == hi,
        p[lo] == lo,
    ensures
        root_of(p.update(hi, lo as usize), j) == if root_of(p, j) == hi {
            lo
        } else {
            root_of(p, j)
        },
    decreases j,
{
    let p2 = p.update(hi, lo as usize);
    if 0 <= j < p.len() {
        if j == hi {
            assert(p2[j] == lo);
            assert(p2[lo] == lo);
            assert(root_of(p2, lo) == lo);
            assert(root_of(p2, j) == lo);
            assert(root_of(p, j) == hi);
        } else {
            if p[j] < j {
                lemma_update_root_merge(p, hi, lo, p[j] as int);
            }
        }
    }
}

/// The sequences of indices of a list of groups.
pub open spec fn group_views(gs: Seq<Vec<usize>>) -> Seq<Seq<usize>> {
    gs.map_values(|g: Vec<usize>| g@)
}

/// `x` appears in one of the groups.
pub open spec fn in_groups(gs: Seq<Seq<usize>>, x: int) -> bool {
    exists|k: int, m: int| 0 <= k < gs.len() && 0 <= m < gs[k].len() && gs[k][m] == x
}

impl UnionFind {
    /// A fresh structure of `n` singleton components.
    pub fn new(n: usize) -> (r: UnionFind)
        ensures
            r.wf(),
            r@.len() == n,
            forall|i: int| 0 <= i < n ==> root_of(r@, i) == i,
    {
        let mut parent: Vec<usize> = Vec::new();
        let mut i: usize = 0;
        while i < n
            invariant
                i <= n,
                parent@.len() == i,
                forall|k: int| 0 <= k < i ==> parent@[k] == k,
            decreases n - i,
        {
            parent.push(i);
            i = i + 1;
        }
        let r = UnionFind { parent };
        assert forall|k: int| 0 <= k < n implies root_of(r@, k) == k by {}
        r
    }

    /// Number of indices tracked.
    pub fn len(&self) -> (n: usize)
        ensures
            n == self@.len(),
    {
        self.parent.len()
    }

    /// The representative of `i`, flattening the chain walked (iterative
    /// path compression). Every index keeps its representative.
    pub fn find(&mut self, i: usize) -> (r: usize)
        requires
            old(self).wf(),
            i < old(self)@.len(),
        ensures
            final(self).wf(),
            final(self)@.len() == old(self)@.len(),
            r as int == root_of(old(self)@, i as int),
            r <= i,
            forall|j: int| root_of(final(self)@, j) == root_of(old(self)@, j),
    {
        let ghost orig = self@;
        let mut r = i;
        while self.parent[r] != r
            invariant
                self@ == orig,
                self.wf(),
                r < self@.len(),
                r <= i,
                root_of(self@, r as int) == root_of(self@, i as int),
            decreases r,
        {
            proof {
                assert(self@[r as int] < r);
            }
            r = self.parent[r];
        }
        assert(root_of(self@, r as int) == r);
        let root = r;
        let mut cur = i;
        while self.parent[cur] != cur
            invariant
                self.wf(),
                self@.len() == orig.len(),
                cur < self@.len(),
                root < self@.len(),
                root_of(self@, cur as int) == root as int,
                root_of(self@, root as int) == root as int,
                forall|j: int| root_of(self@, j) == root_of(orig, j),
            decreases cur,
        {
            let next = self.parent[cur];
            proof {
                assert(self@[cur as int] < cur);
                lemma_root_bounds(self@, cur as int);
                assert(root <= cur);
                assert forall|j: int| root_of(self@.update(cur as int, root), j) == root_of(
                    self@,
                    j,
                ) by {
                    lemma_update_to_root(self@, cur as int, j);
                }
            }
            let ghost pre = self@;
            self.parent[cur] = root;
            proof {
                assert(self@ =~= pre.update(cur as int, root));
                assert(root_of(pre, next as int) == root as int);
            }
            cur = next;
        }
        root
    }

    /// Merge the components of `i` and `j`. Afterwards two indices share a
    /// representative exactly when they already did, or when one answered
    /// with `i`'s component and the other with `j`'s.
    pub fn union(&mut self, i: usize, j: usize)
        requires
            old(self).wf(),
            i < old(self)@.len(),
            j < old(self)@.len(),
        ensures
            final(self).wf(),
            final(self)@.len() == old(self)@.len(),
            forall|a: int, b: int|
                same_root(final(self)@, a, b) <==> (same_root(old(self)@, a, b) || (same_root(
                    old(self)@,
                    a,
                    i as int,
                ) && same_root(old(self)@, b, j as int)) || (same_root(old(self)@, a, j as int)
                    && same_root(old(self)@, b, i as int))),
    {
        let ghost orig = self@;
        let ri = self.find(i);
        let rj = self.find(j);
        proof {
            lemma_root_bounds(self@, i as int);
            lemma_root_bounds(self@, j as int);
            lemma_root_idempotent(self@, i as int);
            lemma_root_idempotent(self@, j as int);
        }
        if ri == rj {
            return ;
        }
        let (lo, hi) = if ri < rj {
            (ri, rj)
        } else {
            (rj, ri)
        };
        proof {
            assert(root_of(self@, hi as int) == hi as int);
            assert(root_of(self@, lo as int) == lo as int);
            assert(self@[hi as int] == hi);
            assert(self@[lo as int] == lo);
        }
        let ghost pre = self@;
        self.parent[hi] = lo;
        proof {
            assert(self@ =~= pre.update(hi as int, lo));
            assert forall|x: int| root_of(self@, x) == (if root_of(pre, x) == hi as int {
                lo as int
            } else {
                root_of(pre, x)
            }) by {
                lemma_update_root_merge(pre, hi as int, lo as int, x);
            }
        }
    }

    /// Read off the components: one group per representative, members in
    /// increasing order, groups ordered by their representative. Together
    /// the groups partition `0..len`, and two indices stand in one group
    /// exactly when they share a representative.
    pub fn groups(&mut self) -> (gs: Vec<Vec<usize>>)
        requires
            old(self).wf(),
        ensures
            final(self).wf(),
            final(self)@.len() == old(self)@.len(),
            forall|j: int| root_of(final(self)@, j) == root_of(old(self)@, j),
            forall|k: int| 0 <= k < group_views(gs@).len() ==> group_views(gs@)[k].len() >= 1,
            forall|k: int, m: int|
                0 <= k < group_views(gs@).len() && 0 <= m < group_views(gs@)[k].len()
                    ==> group_views(gs@)[k][m] < old(self)@.len(),
            forall|k: int, m1: int, m2: int|
                0 <= k < group_views(gs@).len() && 0 <= m1 < m2 < group_views(gs@)[k].len()
                    ==> group_views(gs@)[k][m1] < group_views(gs@)[k][m2],
            forall|k: int, m1: int, m2: int|
                0 <= k < group_views(gs@).len() && 0 <= m1 < group_views(gs@)[k].len() && 0 <= m2
                    < group_views(gs@)[k].len() ==> same_root(
                    old(self)@,
                    group_views(gs@)[k][m1] as int,
                    group_views(gs@)[k][m2] as int,
                ),
            forall|k1: int, k2: int, m1: int, m2: int|
                0 <= k1 < group_views(gs@).len() && 0 <= k2 < group_views(gs@).len() && k1 != k2
                    && 0 <= m1 < group_views(gs@)[k1].len() && 0 <= m2 < group_views(
                    gs@,
                )[k2].len() ==> !same_root(
                    old(self)@,
                    group_views(gs@)[k1][m1] as int,
                    group_views(gs@)[k2][m2] as int,
                ),
            forall|x: int| 0 <= x < old(self)@.len() ==> #[trigger] in_groups(group_views(gs@), x),
    {
        let ghost orig = self@;
        let n = self.parent.len();
        let mut gs: Vec<Vec<usize>> = Vec::new();
        let mut r: usize = 0;
        proof {
            assert forall|x: int| 0 <= x < n implies root_of(orig, x) >= 0 by {
                lemma_root_bounds(orig, x);
            }
        }
        while r < n
            invariant
                r <= n,
                n == self@.len(),
                n == orig.len(),
                self.wf(),
                forall|k: int| 0 <= k < orig.len() ==> #[trigger] orig[k] <= k,
                forall|j: int| root_of(self@, j) == root_of(orig, j),
                forall|k: int| 0 <= k < group_views(gs@).len() ==> group_views(gs@)[k].len() >= 1,
                forall|k: int, m: int|
                    0 <= k < group_views(gs@).len() && 0 <= m < group_views(gs@)[k].len()
                        ==> group_views(gs@)[k][m] < n,
                forall|k: int, m1: int, m2: int|
                    0 <= k < group_views(gs@).len() && 0 <= m1 < m2 < group_views(gs@)[k].len()
                        ==> group_views(gs@)[k][m1] < group_views(gs@)[k][m2],
                forall|k: int, m: int|
                    0 <= k < group_views(gs@).len() && 0 <= m < group_views(gs@)[k].len()
                        ==> root_of(orig, #[trigger] group_views(gs@)[k][m] as int) == root_of(
                        orig,
                        group_views(gs@)[k][0] as int,
                    ),
                forall|k: int|
                    0 <= k < group_views(gs@).len() ==> 0 <= root_of(
                        orig,
                        (#[trigger] group_views(gs@)[k])[0] as int,
                    ) < r,
                forall|k1: int, k2: int|
                    0 <= k1 < k2 < group_views(gs@).len() ==> root_of(
                        orig,
                        group_views(gs@)[k1][0] as int,
                    ) < root_of(orig, group_views(gs@)[k2][0] as int),
                forall|x: int|
                    0 <= x < n && root_of(orig, x) < r ==> #[trigger] in_groups(
                        group_views(gs@),
                        x,
                    ),
            decreases n - r,
    {
            let rr = self.find(r);
            if rr == r {
                let mut g: Vec<usize> = Vec::new();
                let mut x: usize = 0;
                while x < n
                    invariant
                        x <= n,
                        n == self@.len(),
                        n == orig.len(),
                        r < n,
                        self.wf(),
                        forall|k: int| 0 <= k < orig.len() ==> #[trigger] orig[k] <= k,
                        forall|j: int| root_of(self@, j) == root_of(orig, j),
                        root_of(orig, r as int) == r as int,
                        forall|m: int| 0 <= m < g@.len() ==> g@[m] < x,
                        forall|m1: int, m2: int|
                            0 <= m1 < m2 < g@.len() ==> g@[m1] < g@[m2],
                        forall|m: int|
                            0 <= m < g@.len() ==> root_of(orig, g@[m] as int) == r as int,
                        forall|y: int|
                            0 <= y < x && root_of(orig, y) == r as int ==> g@.contains(
                                y as usize,
                            ),
                    decreases n - x,
                {
                    let rx = self.find(x);
                    if rx == r {
                        let ghost old_g = g@;
                        g.push(x);
                        assert forall|y: int|
                            0 <= y < x + 1 && root_of(orig, y) == r as int implies g@.contains(
                            y as usize,
                        ) by {
                            if y < x {
                                assert(old_g.contains(y as usize));
                                let m = choose|m: int|
                                    0 <= m < old_g.len() && old_g[m] == y as usize;
                                assert(g@[m] == y as usize);
                            } else {
                                assert(g@.last() == x);
                            }
                        }
                    } else {
                        assert forall|y: int|
                            0 <= y < x + 1 && root_of(orig, y) == r as int implies g@.contains(
                            y as usize,
                        ) by {}
                    }
                    x = x + 1;
                }
                assert(root_of(orig, r as int) == r as int);
                assert(g@.contains(r));
                assert(g@.len() >= 1);
                proof {
                    assert(root_of(orig, g@[0] as int) == r as int);
                }
                let ghost old_gs = group_views(gs@);
                gs.push(g);
                proof {
                    assert(group_views(gs@) =~= old_gs.push(gs@.last()@));
                }
                assert forall|x2: int|
                    0 <= x2 < n && root_of(orig, x2) < r + 1 implies #[trigger] in_groups(
                    group_views(gs@),
                    x2,
                ) by {
                    if root_of(orig, x2) < r as int {
                        assert(in_groups(old_gs, x2));
                        let (k, m) = choose|k: int, m: int|
                            0 <= k < old_gs.len() && 0 <= m < old_gs[k].len() && old_gs[k][m]
                                == x2;
                        assert(group_views(gs@)[k][m] == x2);
                        assert(in_groups(group_views(gs@), x2));
                    } else {
                        assert(root_of(orig, x2) == r as int);
                        let g2 = group_views(gs@)[group_views(gs@).len() - 1];
                        assert(g2.contains(x2 as usize));
                        let m = choose|m: int| 0 <= m < g2.len() && g2[m] == x2 as usize;
                        assert(group_views(gs@)[group_views(gs@).len() - 1][m] == x2);
                        assert(in_groups(group_views(gs@), x2));
                    }
                }
            } else {
                proof {
                    lemma_root_bounds(orig, r as int);
                    lemma_root_idempotent(orig, r as int);
                    assert(root_of(orig, r as int) < r as int);
                    assert forall|x2: int|
                        0 <= x2 < n && root_of(orig, x2) < r + 1 implies root_of(orig, x2)
                        < r as int by {
                        if root_of(orig, x2) == r as int {
                            lemma_root_idempotent(orig, x2);
                            assert(root_of(orig, r as int) == r as int);
                        }
                    }
                }
            }
            r = r + 1;
        }
        proof {
            assert forall|x: int| 0 <= x < n implies root_of(orig, x) < n as int by {
                lemma_root_bounds(orig, x);
            }
            assert forall|k: int, m1: int, m2: int|
                0 <= k < group_views(gs@).len() && 0 <= m1 < group_views(gs@)[k].len() && 0 <= m2
                    < group_views(gs@)[k].len() implies same_root(
                orig,
                group_views(gs@)[k][m1] as int,
                group_views(gs@)[k][m2] as int,
            ) by {}
        }
        gs
    }
}

} // verus!
