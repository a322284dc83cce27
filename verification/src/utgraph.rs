//! An undirected, unweighted, simple graph over a packed symmetric matrix.
//!
//! An off-diagonal cell `(a, b)` holds 1 when the edge `{a, b}` exists and 0
//! otherwise; the diagonal cell `(a, a)` caches the degree of vertex `a`.
//! The graph is built once from a vertex count and an edge list and then
//! answers read-only structural queries.

use vstd::prelude::*;
use crate::symmat::SymMat;
use crate::symmat::same_cell;

verus! {

/// A pair that may stand in an edge list of a graph with `n` vertices: two
/// distinct vertex indices, both in range.
pub open spec fn pair_valid(e: (usize, usize), n: int) -> bool {
    e.0 != e.1 && (e.0 as int) < n && (e.1 as int) < n
}

/// No two entries of an edge list name the same unordered pair.
pub open spec fn pairs_distinct(l: Seq<(usize, usize)>) -> bool {
    forall|k: int, m: int|
        0 <= k < m < l.len() ==> !same_cell(
            (#[trigger] l[k]).0 as int,
            l[k].1 as int,
            (#[trigger] l[m]).0 as int,
            l[m].1 as int,
        )
}

/// Whether the unordered pair `{x, y}` occurs in the edge list.
pub open spec fn edge_in_list(l: Seq<(usize, usize)>, x: int, y: int) -> bool {
    exists|k: int|
        0 <= k < l.len() && same_cell(x, y, (#[trigger] l[k]).0 as int, l[k].1 as int)
}

/// A sequence of vertex indices in strictly ascending order: sorted, with no
/// duplicates.
pub open spec fn strictly_ascending(s: Seq<usize>) -> bool {
    forall|k: int, m: int| 0 <= k < m < s.len() ==> s[k] < s[m]
}

/// In a strictly ascending sequence the entry at position `k` is at least `k`.
proof fn lemma_ascending_index(s: Seq<usize>, k: int)
    requires
        strictly_ascending(s),
        0 <= k < s.len(),
    ensures
        s[k] >= k,
    decreases k,
{
    if k > 0 {
        lemma_ascending_index(s, k - 1);
        assert(s[k - 1] < s[k]);
    }
}

/// A strictly ascending sequence of indices below `n` has at most `n` entries.
proof fn lemma_ascending_len(s: Seq<usize>, n: int)
    requires
        strictly_ascending(s),
        n >= 0,
        forall|k: int| 0 <= k < s.len() ==> s[k] < n,
    ensures
        s.len() <= n,
{
    if s.len() > 0 {
        lemma_ascending_index(s, s.len() - 1);
    }
}

/// Whether the sorted list holds the value, by binary search.
fn sorted_contains(list: &Vec<usize>, x: usize) -> (r: bool)
    requires
        strictly_ascending(list@),
    ensures
        r == list@.contains(x),
{
    let mut lo: usize = 0;
    let mut hi: usize = list.len();
    while lo < hi
        invariant
            lo <= hi <= list@.len(),
            strictly_ascending(list@),
            forall|k: int| 0 <= k < lo ==> list@[k] < x,
            forall|k: int| hi <= k < list@.len() ==> list@[k] > x,
        decreases hi - lo,
    {
        let mid: usize = lo + (hi - lo) / 2;
        let v: usize = list[mid];
        if v == x {
            proof {
                assert(list@.contains(x)) by {
                    assert(list@[mid as int] == x);
                }
            }
            return true;
        } else if v < x {
            proof {
                assert forall|k: int| 0 <= k < mid + 1 implies list@[k] < x by {
                    if k < mid {
                        assert(list@[k] < list@[mid as int]);
                    }
                }
            }
            lo = mid + 1;
        } else {
            hi = mid;
        }
    }
    proof {
        if list@.contains(x) {
            let k = choose|k: int| 0 <= k < list@.len() && list@[k] == x;
            assert(false);
        }
    }
    false
}

/// Insert the value into the sorted list, keeping it sorted; a value that is
/// already there is left alone.
fn sorted_insert(list: &mut Vec<usize>, x: usize)
    requires
        strictly_ascending(old(list)@),
    ensures
        strictly_ascending(final(list)@),
        forall|y: usize| #[trigger] final(list)@.contains(y) <==> (old(list)@.contains(y) || y == x),
        old(list)@.contains(x) ==> final(list)@ == old(list)@,
        !old(list)@.contains(x) ==> final(list)@.len() == old(list)@.len() + 1,
{
    let mut i: usize = 0;
    while i < list.len() && *list.get(i).unwrap() < x
        invariant
            i <= list@.len(),
            list@ == old(list)@,
            forall|k: int| 0 <= k < i ==> list@[k] < x,
        decreases list@.len() - i,
    {
        i = i + 1;
    }
    if i < list.len() {
        let cur: usize = list[i];
        if cur == x {
            proof {
                assert(list@.contains(x)) by {
                    assert(list@[i as int] == x);
                }
                assert forall|y: usize| #[trigger] list@.contains(y) implies (list@.contains(y) || y
                    == x) by {}
            }
            return ;
        }
    }
    proof {
        assert forall|k: int| i <= k < list@.len() implies list@[k] > x by {
            if k > i {
                assert(list@[i as int] < list@[k]);
            }
        }
        if list@.contains(x) {
            let k = choose|k: int| 0 <= k < list@.len() && list@[k] == x;
            assert(false);
        }
    }
    let ghost pre = list@;
    list.insert(i, x);
    proof {
        let ii = i as int;
        assert(list@ == pre.insert(ii, x));
        assert forall|k: int, m: int| 0 <= k < m < list@.len() implies list@[k] < list@[m] by {
            if k < ii && m < ii {
                assert(list@[k] == pre[k] && list@[m] == pre[m]);
            } else if k < ii && m == ii {
                assert(list@[k] == pre[k] && pre[k] < x);
            } else if k < ii && m > ii {
                assert(list@[k] == pre[k] && list@[m] == pre[m - 1] && pre[m - 1] > x && pre[k]
                    < x);
            } else if k == ii && m > ii {
                assert(list@[m] == pre[m - 1] && pre[m - 1] > x);
            } else {
                assert(list@[k] == pre[k - 1] && list@[m] == pre[m - 1]);
            }
        }
        assert forall|y: usize| #[trigger] list@.contains(y) implies (pre.contains(y) || y
            == x) by {
            let k = choose|k: int| 0 <= k < list@.len() && list@[k] == y;
            if k < ii {
                assert(pre[k] == y);
            } else if k > ii {
                assert(pre[k - 1] == y);
            }
        }
        assert forall|y: usize| pre.contains(y) || y == x implies #[trigger] list@.contains(y) by {
            if y == x {
                assert(list@[ii] == x);
            } else {
                let k = choose|k: int| 0 <= k < pre.len() && pre[k] == y;
                if k < ii {
                    assert(list@[k] == y);
                } else {
                    assert(list@[k + 1] == y);
                }
            }
        }
    }
}

/// Upper triangular graph.
pub struct UTGraph {
    edges: usize,
    adj_mat: SymMat<usize>,
}

impl UTGraph {
    /// Number of vertices of the graph.
    pub closed spec fn spec_verts(self) -> int {
        self.adj_mat.spec_size()
    }

    /// The edge-count field of the graph.
    pub closed spec fn spec_edges(self) -> int {
        self.edges as int
    }

    /// The matrix cell of the pair `(i, j)`. Symmetric in its arguments by
    /// the storage scheme.
    pub closed spec fn cell(self, i: int, j: int) -> int {
        self.adj_mat.spec_at(i, j) as int
    }

    /// Whether the edge `{a, b}` is present. No vertex is adjacent to itself.
    pub open spec fn spec_edge(self, a: int, b: int) -> bool {
        a != b && self.cell(a, b) == 1
    }

    /// Number of neighbors of `a` among the vertices smaller than `n`.
    pub open spec fn nbr_count(self, a: int, n: int) -> int
        decreases n,
    {
        if n <= 0 {
            0
        } else {
            self.nbr_count(a, n - 1) + if n - 1 != a && self.cell(a, n - 1) == 1 {
                1int
            } else {
                0int
            }
        }
    }

    /// The degree of vertex `a`: how many vertices are adjacent to it.
    pub open spec fn spec_degree(self, a: int) -> int {
        self.nbr_count(a, self.spec_verts())
    }

    /// Number of unordered pairs `{i, j}` with `i < j < n` that are edges.
    pub open spec fn pair_count(self, n: int) -> int
        decreases n,
    {
        if n <= 0 {
            0
        } else {
            self.pair_count(n - 1) + self.nbr_count(n - 1, n - 1)
        }
    }

    /// Sum of `nbr_count(a, n)` over the vertices `a < m`.
    pub open spec fn sum_deg(self, m: int, n: int) -> int
        decreases m,
    {
        if m <= 0 {
            0
        } else {
            self.sum_deg(m - 1, n) + self.nbr_count(m - 1, n)
        }
    }

    /// The matrix is well formed and every diagonal cell caches the degree of
    /// its vertex.
    pub closed spec fn deg_wf(self) -> bool {
        &&& self.adj_mat.wf()
        &&& forall|a: int|
            0 <= a < self.spec_verts() ==> self.cell(a, a) == #[trigger] self.nbr_count(
                a,
                self.spec_verts(),
            )
    }

    /// Well-formed graph: the degrees are cached on the diagonal and the
    /// edge-count field counts exactly the unordered pairs that are edges.
    pub closed spec fn wf(self) -> bool {
        &&& self.deg_wf()
        &&& self.spec_edges() == self.pair_count(self.spec_verts())
    }

    /// The edge relation is symmetric.
    pub proof fn lemma_edge_symmetric(self, a: int, b: int)
        ensures
            self.spec_edge(a, b) == self.spec_edge(b, a),
    {
        self.adj_mat.lemma_symmetric(a, b);
    }

    /// A neighbor count is non-negative and cannot exceed the number of
    /// counted vertices other than `a` itself.
    pub proof fn lemma_nbr_count_bounds(self, a: int, n: int)
        requires
            n >= 0,
        ensures
            0 <= self.nbr_count(a, n),
            self.nbr_count(a, n) <= n - (if 0 <= a < n {
                1int
            } else {
                0int
            }),
        decreases n,
    {
        if n > 0 {
            self.lemma_nbr_count_bounds(a, n - 1);
        }
    }

    /// Two graphs whose row `a` agrees below `n` (the diagonal aside) count
    /// the neighbors of `a` alike.
    proof fn lemma_nbr_count_frame(g1: Self, g2: Self, a: int, n: int)
        requires
            forall|j: int| 0 <= j < n && j != a ==> g2.cell(a, j) == g1.cell(a, j),
        ensures
            g2.nbr_count(a, n) == g1.nbr_count(a, n),
        decreases n,
    {
        if n > 0 {
            Self::lemma_nbr_count_frame(g1, g2, a, n - 1);
        }
    }

    /// Changing row `a` in the one column `t` moves the neighbor count of `a`
    /// by the difference of the two indicators at `t`.
    proof fn lemma_nbr_count_change(g1: Self, g2: Self, a: int, t: int, n: int)
        requires
            0 <= t < n,
            t != a,
            forall|j: int| 0 <= j < n && j != t && j != a ==> g2.cell(a, j) == g1.cell(a, j),
        ensures
            g2.nbr_count(a, n) == g1.nbr_count(a, n) - (if g1.cell(a, t) == 1 {
                1int
            } else {
                0int
            }) + (if g2.cell(a, t) == 1 {
                1int
            } else {
                0int
            }),
        decreases n,
    {
        if t == n - 1 {
            Self::lemma_nbr_count_frame(g1, g2, a, n - 1);
        } else {
            Self::lemma_nbr_count_change(g1, g2, a, t, n - 1);
        }
    }

    /// A vertex with no 1-cell in its row has no neighbors.
    proof fn lemma_nbr_count_zero(self, a: int, n: int)
        requires
            forall|j: int| 0 <= j < n && j != a ==> self.cell(a, j) != 1,
        ensures
            self.nbr_count(a, n) == 0,
        decreases n,
    {
        if n > 0 {
            self.lemma_nbr_count_zero(a, n - 1);
        }
    }

    /// The neighbor count of `a` reaches its maximum exactly when `a` is
    /// adjacent to every other counted vertex.
    proof fn lemma_nbr_count_full(self, a: int, n: int)
        requires
            n >= 0,
        ensures
            (self.nbr_count(a, n) == n - (if 0 <= a < n {
                1int
            } else {
                0int
            })) <==> (forall|j: int| 0 <= j < n && j != a ==> self.cell(a, j) == 1),
        decreases n,
    {
        if n > 0 {
            self.lemma_nbr_count_full(a, n - 1);
            self.lemma_nbr_count_bounds(a, n - 1);
        }
    }

    /// A vertex with at least one neighbor has a positive count.
    proof fn lemma_nbr_count_pos(self, a: int, w: int, n: int)
        requires
            0 <= w < n,
            w != a,
            self.cell(a, w) == 1,
        ensures
            self.nbr_count(a, n) >= 1,
        decreases n,
    {
        if w < n - 1 {
            self.lemma_nbr_count_pos(a, w, n - 1);
        } else {
            self.lemma_nbr_count_bounds(a, n - 1);
        }
    }

    /// Two graphs that agree on every strictly upper cell below `n` count the
    /// same pairs.
    proof fn lemma_pair_count_frame(g1: Self, g2: Self, n: int)
        requires
            forall|i: int, j: int| 0 <= i < j < n ==> g2.cell(i, j) == g1.cell(i, j),
        ensures
            g2.pair_count(n) == g1.pair_count(n),
        decreases n,
    {
        if n > 0 {
            let m: int = n - 1;
            Self::lemma_pair_count_frame(g1, g2, m);
            assert forall|j: int| 0 <= j < m && j != m implies #[trigger] g2.cell(m, j) == g1.cell(
                m,
                j,
            ) by {
                g1.adj_mat.lemma_symmetric(m, j);
                g2.adj_mat.lemma_symmetric(m, j);
                assert(g2.cell(j, m) == g1.cell(j, m));
            }
            Self::lemma_nbr_count_frame(g1, g2, m, m);
        }
    }

    /// Turning the one cell `{lo, hi}` from a non-edge into an edge raises
    /// the pair count by exactly one.
    proof fn lemma_pair_count_change(g1: Self, g2: Self, lo: int, hi: int, n: int)
        requires
            0 <= lo < hi < n,
            g1.cell(lo, hi) != 1,
            g2.cell(lo, hi) == 1,
            forall|i: int, j: int|
                0 <= i < j < n && !same_cell(i, j, lo, hi) ==> g2.cell(i, j) == g1.cell(i, j),
        ensures
            g2.pair_count(n) == g1.pair_count(n) + 1,
        decreases n,
    {
        let m: int = n - 1;
        if m == hi {
            Self::lemma_pair_count_frame(g1, g2, m);
            assert forall|j: int| 0 <= j < m && j != lo implies #[trigger] g2.cell(m, j) == g1.cell(
                m,
                j,
            ) by {
                g1.adj_mat.lemma_symmetric(m, j);
                g2.adj_mat.lemma_symmetric(m, j);
                assert(g2.cell(j, m) == g1.cell(j, m));
            }
            g1.adj_mat.lemma_symmetric(m, lo);
            g2.adj_mat.lemma_symmetric(m, lo);
            Self::lemma_nbr_count_change(g1, g2, m, lo, m);
        } else {
            Self::lemma_pair_count_change(g1, g2, lo, hi, m);
            assert forall|j: int| 0 <= j < m && j != m implies #[trigger] g2.cell(m, j) == g1.cell(
                m,
                j,
            ) by {
                g1.adj_mat.lemma_symmetric(m, j);
                g2.adj_mat.lemma_symmetric(m, j);
                assert(g2.cell(j, m) == g1.cell(j, m));
            }
            Self::lemma_nbr_count_frame(g1, g2, m, m);
        }
    }

    /// A graph with no 1-cell above the diagonal has no pairs.
    proof fn lemma_pair_count_zero(self, n: int)
        requires
            forall|i: int, j: int| 0 <= i < j < n ==> self.cell(i, j) != 1,
        ensures
            self.pair_count(n) == 0,
        decreases n,
    {
        if n > 0 {
            let m: int = n - 1;
            self.lemma_pair_count_zero(m);
            assert forall|j: int| 0 <= j < m && j != m implies #[trigger] self.cell(m, j) != 1 by {
                self.adj_mat.lemma_symmetric(m, j);
                assert(self.cell(j, m) != 1);
            }
            self.lemma_nbr_count_zero(m, m);
        }
    }

    /// Whether `connect(a, b)` may be applied to this graph: both vertices
    /// exist, they differ, and the edge is not there yet.
    pub open spec fn can_connect(self, a: int, b: int) -> bool {
        &&& 0 <= a < self.spec_verts()
        &&& 0 <= b < self.spec_verts()
        &&& a != b
        &&& !self.spec_edge(a, b)
    }

    /// Connect the vertex 'a' to the vertex 'b'. Leaves the edge-count field
    /// alone: `with_edges` settles it once, after adding a whole list.
    pub fn connect(&mut self, a: usize, b: usize)
        requires
            old(self).deg_wf(),
            old(self).can_connect(a as int, b as int),
        ensures
            final(self).deg_wf(),
            final(self).spec_verts() == old(self).spec_verts(),
            final(self).spec_edges() == old(self).spec_edges(),
            final(self).pair_count(final(self).spec_verts()) == old(self).pair_count(
                old(self).spec_verts(),
            ) + 1,
            forall|x: int, y: int|
                0 <= x < old(self).spec_verts() && 0 <= y < old(self).spec_verts()
                    ==> (final(self).spec_edge(x, y) <==> (old(self).spec_edge(x, y) || same_cell(
                    x,
                    y,
                    a as int,
                    b as int,
                ))),
            forall|v: int|
                0 <= v < old(self).spec_verts() ==> #[trigger] final(self).spec_degree(v) == old(
                    self,
                ).spec_degree(v) + (if v == a || v == b {
                    1int
                } else {
                    0int
                }),
    {
        let ghost n = old(self).spec_verts();
        let ghost g0 = *self;
        proof {
            g0.adj_mat.lemma_size_bounds();
        }
        self.adj_mat.set(a, b, 1);
        let ghost g1 = *self;
        proof {
            g0.adj_mat.lemma_symmetric(a as int, b as int);
            g0.lemma_nbr_count_bounds(a as int, n);
            assert(g0.cell(a as int, a as int) == g0.nbr_count(a as int, n));
            assert(g1.cell(a as int, a as int) == g0.cell(a as int, a as int));
            assert(g1.cell(a as int, a as int) <= n - 1);
        }
        let deg_a: usize = *self.adj_mat.get(a, a).unwrap();
        proof {
            assert(deg_a as int <= n - 1);
        }
        self.adj_mat.set(a, a, deg_a + 1);
        let ghost g2 = *self;
        proof {
            g0.lemma_nbr_count_bounds(b as int, n);
            assert(g0.cell(b as int, b as int) == g0.nbr_count(b as int, n));
            assert(g2.cell(b as int, b as int) == g0.cell(b as int, b as int));
            assert(g2.cell(b as int, b as int) <= n - 1);
        }
        let deg_b: usize = *self.adj_mat.get(b, b).unwrap();
        proof {
            assert(deg_b as int <= n - 1);
        }
        self.adj_mat.set(b, b, deg_b + 1);
        proof {
            let g3 = *self;
            let ai = a as int;
            let bi = b as int;
            // The two diagonal writes touch no off-diagonal cell, so the
            // whole edge change against g0 is the one cell {a, b}.
            assert forall|x: int, y: int|
                0 <= x < n && 0 <= y < n && x != y && !same_cell(x, y, ai, bi) implies #[trigger] g3
                .cell(x, y) == g0.cell(x, y) by {}
            assert(g3.cell(ai, bi) == 1 && g3.cell(bi, ai) == 1);
            // Each neighbor count moves with its row.
            assert forall|v: int| 0 <= v < n implies #[trigger] g3.nbr_count(v, n) == g0.nbr_count(
                v,
                n,
            ) + (if v == ai || v == bi {
                1int
            } else {
                0int
            }) by {
                if v == ai {
                    Self::lemma_nbr_count_change(g0, g3, ai, bi, n);
                } else if v == bi {
                    g0.adj_mat.lemma_symmetric(ai, bi);
                    g3.adj_mat.lemma_symmetric(ai, bi);
                    Self::lemma_nbr_count_change(g0, g3, bi, ai, n);
                } else {
                    Self::lemma_nbr_count_frame(g0, g3, v, n);
                }
            }
            // The pair count gains exactly the new pair.
            let lo = if ai <= bi { ai } else { bi };
            let hi = if ai <= bi { bi } else { ai };
            g0.adj_mat.lemma_symmetric(ai, bi);
            g3.adj_mat.lemma_symmetric(ai, bi);
            Self::lemma_pair_count_change(g0, g3, lo, hi, n);
            // The diagonal caches follow the counts.
            assert(g3.cell(ai, ai) == g0.cell(ai, ai) + 1);
            assert(g3.cell(bi, bi) == g0.cell(bi, bi) + 1);
            assert forall|v: int| 0 <= v < n implies g3.cell(v, v) == #[trigger] g3.nbr_count(
                v,
                n,
            ) by {
                if v != ai && v != bi {
                    assert(g3.cell(v, v) == g0.cell(v, v));
                }
            }
        }
    }

    /// Add the given edges to the graph. An edge is represented by a tuple
    /// of the form (a, b), which represents an edge from 'a' to 'b'. The
    /// graph must still be fresh: the list is applied exactly once, right
    /// after `new`.
    pub fn with_edges(self, edges: &[(usize, usize)]) -> (r: Self)
        requires
            self.wf(),
            self.spec_edges() == 0,
            forall|x: int, y: int|
                0 <= x < self.spec_verts() && 0 <= y < self.spec_verts() ==> !(
                #[trigger] self.spec_edge(x, y)),
            forall|k: int|
                0 <= k < edges@.len() ==> pair_valid(#[trigger] edges@[k], self.spec_verts()),
            pairs_distinct(edges@),
        ensures
            r.wf(),
            r.spec_verts() == self.spec_verts(),
            r.spec_edges() == edges@.len(),
            forall|x: int, y: int|
                0 <= x < self.spec_verts() && 0 <= y < self.spec_verts()
                    ==> ((#[trigger] r.spec_edge(x, y)) <==> edge_in_list(edges@, x, y)),
    {
        let ghost n = self.spec_verts();
        proof {
            self.adj_mat.lemma_size_bounds();
        }
        let mut g = self;
        let mut k: usize = 0;
        while k < edges.len()
            invariant
                g.deg_wf(),
                g.spec_verts() == n,
                g.spec_edges() == 0,
                k <= edges@.len(),
                g.pair_count(n) == k,
                forall|j: int| 0 <= j < edges@.len() ==> pair_valid(#[trigger] edges@[j], n),
                pairs_distinct(edges@),
                forall|x: int, y: int|
                    0 <= x < n && 0 <= y < n ==> ((#[trigger] g.spec_edge(x, y))
                        <==> edge_in_list(edges@.take(k as int), x, y)),
            decreases edges@.len() - k,
        {
            let e: (usize, usize) = edges[k];
            proof {
                let ki = k as int;
                assert(edges@.take(ki + 1) =~= edges@.take(ki).push(edges@[ki]));
                if g.spec_edge(e.0 as int, e.1 as int) {
                    let j = choose|j: int|
                        0 <= j < ki && same_cell(
                            e.0 as int,
                            e.1 as int,
                            (#[trigger] edges@.take(ki)[j]).0 as int,
                            edges@.take(ki)[j].1 as int,
                        );
                    assert(!same_cell(
                        edges@[j].0 as int,
                        edges@[j].1 as int,
                        edges@[ki].0 as int,
                        edges@[ki].1 as int,
                    ));
                }
            }
            g.connect(e.0, e.1);
            proof {
                let ki = k as int;
                assert forall|x: int, y: int| 0 <= x < n && 0 <= y < n implies ((
                #[trigger] g.spec_edge(x, y)) <==> edge_in_list(edges@.take(ki + 1), x, y)) by {
                    if same_cell(x, y, e.0 as int, e.1 as int) {
                        assert(same_cell(
                            x,
                            y,
                            (edges@.take(ki + 1)[ki]).0 as int,
                            edges@.take(ki + 1)[ki].1 as int,
                        ));
                        assert(edge_in_list(edges@.take(ki + 1), x, y));
                    } else if edge_in_list(edges@.take(ki + 1), x, y) {
                        let j = choose|j: int|
                            0 <= j < ki + 1 && same_cell(
                                x,
                                y,
                                (#[trigger] edges@.take(ki + 1)[j]).0 as int,
                                edges@.take(ki + 1)[j].1 as int,
                            );
                        assert(j < ki);
                        assert(same_cell(
                            x,
                            y,
                            (edges@.take(ki)[j]).0 as int,
                            edges@.take(ki)[j].1 as int,
                        ));
                    }
                }
            }
            k = k + 1;
        }
        proof {
            assert(edges@.take(edges@.len() as int) =~= edges@);
        }
        let ghost gpre = g;
        g.edges = edges.len();
        proof {
            assert forall|a: int| 0 <= a < n implies #[trigger] g.nbr_count(a, n) == gpre.nbr_count(
                a,
                n,
            ) by {
                Self::lemma_nbr_count_frame(gpre, g, a, n);
            }
            Self::lemma_pair_count_frame(gpre, g, n);
            assert forall|x: int, y: int| 0 <= x < n && 0 <= y < n implies ((
            #[trigger] g.spec_edge(x, y)) <==> edge_in_list(edges@, x, y)) by {
                assert(g.cell(x, y) == gpre.cell(x, y));
                assert(gpre.spec_edge(x, y) <==> edge_in_list(
                    edges@.take(edges@.len() as int),
                    x,
                    y,
                ));
            }
        }
        g
    }

    /// Creates new graph with `verts` vertices.
    pub fn new(verts: usize) -> (r: Self)
        requires
            (verts as int) * (verts as int + 1) <= usize::MAX as int,
        ensures
            r.wf(),
            r.spec_verts() == verts,
            r.spec_edges() == 0,
            forall|x: int, y: int|
                0 <= x < verts && 0 <= y < verts ==> !(#[trigger] r.spec_edge(x, y)),
            forall|a: int| 0 <= a < verts ==> #[trigger] r.spec_degree(a) == 0,
    {
        let r = UTGraph { edges: 0, adj_mat: SymMat::fill_default(verts) };
        proof {
            assert forall|x: int, y: int|
                0 <= x < verts && 0 <= y < verts implies #[trigger] r.cell(x, y) == 0 by {
                assert(call_ensures(usize::default, (), r.adj_mat.spec_at(x, y)));
            }
            assert forall|a: int| 0 <= a < verts implies #[trigger] r.nbr_count(
                a,
                r.spec_verts(),
            ) == 0 by {
                r.lemma_nbr_count_zero(a, verts as int);
            }
            r.lemma_pair_count_zero(verts as int);
            assert forall|a: int| 0 <= a < verts implies #[trigger] r.spec_degree(a) == 0 by {
                assert(r.nbr_count(a, r.spec_verts()) == 0);
            }
        }
        r
    }

    /// Get the number of vertices of the graph.
    pub fn verts(&self) -> (r: usize)
        ensures
            r == self.spec_verts(),
    {
        self.adj_mat.size()
    }

    /// Get the number of edges of the graph.
    pub fn edges(&self) -> (r: usize)
        ensures
            r == self.spec_edges(),
    {
        self.edges
    }

    /// Returns `true` if the vertex 'a' is connected to the vertex 'b' and
    /// `false` otherwise.
    pub fn connected(&self, a: usize, b: usize) -> (r: bool)
        requires
            self.wf(),
            a == b || (a < self.spec_verts() && b < self.spec_verts()),
        ensures
            r == self.spec_edge(a as int, b as int),
    {
        a != b && *self.adj_mat.get(a, b).expect("Invalid edge.") == 1
    }

    /// Returns the degree of the vertex 'a' or `None` if the vertex is out of
    /// bounds.
    pub fn degree(&self, a: usize) -> (r: Option<usize>)
        requires
            self.wf(),
        ensures
            r is Some <==> a < self.spec_verts(),
            r matches Some(d) ==> d == self.spec_degree(a as int),
    {
        match self.adj_mat.get(a, a) {
            Some(d) => Some(*d),
            None => None,
        }
    }
}


impl UTGraph {
    /// Returns the maximum degree of the graph. A graph with no vertex has
    /// no maximum degree.
    pub fn max_deg(&self) -> (r: usize)
        requires
            self.wf(),
            self.spec_verts() >= 1,
        ensures
            exists|v: int| 0 <= v < self.spec_verts() && #[trigger] self.spec_degree(v) == r,
            forall|v: int| 0 <= v < self.spec_verts() ==> #[trigger] self.spec_degree(v) <= r,
    {
        let n: usize = self.verts();
        let mut best: usize = self.degree(0).unwrap();
        let mut v: usize = 1;
        while v < n
            invariant
                self.wf(),
                n == self.spec_verts(),
                1 <= v <= n,
                exists|w: int| 0 <= w < v && #[trigger] self.spec_degree(w) == best,
                forall|w: int| 0 <= w < v ==> #[trigger] self.spec_degree(w) <= best,
            decreases n - v,
        {
            let d: usize = self.degree(v).unwrap();
            if d > best {
                best = d;
            }
            v = v + 1;
        }
        best
    }

    /// Returns the neighborhood of 'a': every adjacent vertex, in strictly
    /// ascending order, each one exactly once.
    pub fn nbhd(&self, a: usize) -> (r: Vec<usize>)
        requires
            self.wf(),
            a < self.spec_verts(),
        ensures
            forall|k: int, m: int| 0 <= k < m < r@.len() ==> r@[k] < r@[m],
            forall|k: int| 0 <= k < r@.len() ==> (#[trigger] r@[k]) < self.spec_verts(),
            forall|k: int|
                0 <= k < r@.len() ==> self.spec_edge(a as int, (#[trigger] r@[k]) as int),
            forall|x: int|
                0 <= x < self.spec_verts() ==> ((#[trigger] self.spec_edge(a as int, x))
                    <==> r@.contains(x as usize)),
            r@.len() == self.spec_degree(a as int),
    {
        let n: usize = self.verts();
        let mut nbhd: Vec<usize> = Vec::new();
        let mut b: usize = 0;
        while b < n
            invariant
                self.wf(),
                n == self.spec_verts(),
                a < n,
                b <= n,
                forall|k: int, m: int| 0 <= k < m < nbhd@.len() ==> nbhd@[k] < nbhd@[m],
                forall|k: int| 0 <= k < nbhd@.len() ==> (#[trigger] nbhd@[k]) < b,
                forall|k: int|
                    0 <= k < nbhd@.len() ==> self.spec_edge(a as int, (#[trigger] nbhd@[k]) as int),
                forall|x: int|
                    0 <= x < b ==> ((#[trigger] self.spec_edge(a as int, x)) <==> nbhd@.contains(
                        x as usize,
                    )),
                nbhd@.len() == self.nbr_count(a as int, b as int),
            decreases n - b,
        {
            let ghost pre = nbhd@;
            if self.connected(a, b) {
                nbhd.push(b);
            }
            proof {
                assert forall|x: int|
                    0 <= x < b + 1 implies ((#[trigger] self.spec_edge(a as int, x))
                    <==> nbhd@.contains(x as usize)) by {
                    if nbhd@.len() > pre.len() && x < b {
                        assert(nbhd@.contains(x as usize) ==> pre.contains(x as usize) || x == b);
                    }
                    if self.spec_edge(a as int, x) && x < b {
                        assert(pre.contains(x as usize));
                        let k = choose|k: int| 0 <= k < pre.len() && pre[k] == x as usize;
                        assert(nbhd@[k] == x as usize);
                    }
                    if self.spec_edge(a as int, x) && x == b {
                        assert(nbhd@[nbhd@.len() - 1] == b);
                    }
                }
            }
            b = b + 1;
        }
        nbhd
    }

    /// Extending the counted range by one vertex adds that vertex's column.
    proof fn lemma_sum_deg_extend(self, m: int, n: int)
        requires
            0 <= m <= n,
        ensures
            self.sum_deg(m, n + 1) == self.sum_deg(m, n) + self.nbr_count(n, m),
        decreases m,
    {
        if m > 0 {
            self.lemma_sum_deg_extend(m - 1, n);
            self.adj_mat.lemma_symmetric(m - 1, n);
        }
    }

    /// Every edge is counted from both of its endpoints: the degrees of the
    /// first `n` vertices sum to twice the pairs among them.
    proof fn lemma_handshake(self, n: int)
        requires
            n >= 0,
        ensures
            self.sum_deg(n, n) == 2 * self.pair_count(n),
        decreases n,
    {
        if n > 0 {
            let m: int = n - 1;
            self.lemma_handshake(m);
            self.lemma_sum_deg_extend(m, m);
        }
    }

    /// The degree sum when every vertex but at most one hub has degree one.
    proof fn lemma_sum_deg_exact(self, m: int, n: int, h: int)
        requires
            m >= 0,
            forall|a: int| 0 <= a < m && a != h ==> #[trigger] self.nbr_count(a, n) == 1,
        ensures
            self.sum_deg(m, n) == m + (if 0 <= h < m {
                self.nbr_count(h, n) - 1
            } else {
                0int
            }),
        decreases m,
    {
        if m > 0 {
            self.lemma_sum_deg_exact(m - 1, n, h);
        }
    }

    /// With every vertex of positive degree, the degree sum is at least the
    /// vertex count.
    proof fn lemma_sum_deg_lb(self, m: int, n: int)
        requires
            m >= 0,
            forall|a: int| 0 <= a < m ==> #[trigger] self.nbr_count(a, n) >= 1,
        ensures
            self.sum_deg(m, n) >= m,
        decreases m,
    {
        if m > 0 {
            self.lemma_sum_deg_lb(m - 1, n);
        }
    }

    /// As before, counting one chosen vertex with its full degree.
    proof fn lemma_sum_deg_lb1(self, m: int, n: int, v: int)
        requires
            0 <= v < m,
            forall|a: int| 0 <= a < m ==> #[trigger] self.nbr_count(a, n) >= 1,
        ensures
            self.sum_deg(m, n) >= m - 1 + self.nbr_count(v, n),
        decreases m,
    {
        if v == m - 1 {
            self.lemma_sum_deg_lb(m - 1, n);
        } else {
            self.lemma_sum_deg_lb1(m - 1, n, v);
        }
    }

    /// As before, counting two chosen vertices with their full degrees.
    proof fn lemma_sum_deg_lb2(self, m: int, n: int, v: int, w: int)
        requires
            0 <= v < m,
            0 <= w < m,
            v != w,
            forall|a: int| 0 <= a < m ==> #[trigger] self.nbr_count(a, n) >= 1,
        ensures
            self.sum_deg(m, n) >= m - 2 + self.nbr_count(v, n) + self.nbr_count(w, n),
        decreases m,
    {
        if v == m - 1 {
            self.lemma_sum_deg_lb1(m - 1, n, w);
        } else if w == m - 1 {
            self.lemma_sum_deg_lb1(m - 1, n, v);
        } else {
            self.lemma_sum_deg_lb2(m - 1, n, v, w);
        }
    }

    /// Whether `h` is the hub of a star graph: adjacent to every other
    /// vertex, while every other vertex has degree exactly one.
    pub open spec fn is_hub(self, h: int) -> bool {
        &&& 0 <= h < self.spec_verts()
        &&& forall|b: int| 0 <= b < self.spec_verts() && b != h ==> self.spec_edge(h, b)
        &&& forall|v: int|
            0 <= v < self.spec_verts() && v != h ==> #[trigger] self.spec_degree(v) == 1
    }

    /// Whether the graph is a star: one hub vertex adjacent to every other
    /// vertex, all non-hub vertices of degree exactly one.
    pub open spec fn spec_is_star(self) -> bool {
        exists|h: int| #[trigger] self.is_hub(h)
    }

    /// Returns `true` if the graph is a star and `false` otherwise. The graph
    /// must have at least one vertex.
    pub fn is_star(&self) -> (r: bool)
        requires
            self.wf(),
            self.spec_verts() >= 1,
        ensures
            r == self.spec_is_star(),
    {
        let n: usize = self.verts();
        let ghost ni = n as int;
        let max_deg: usize = n - 1;
        if self.edges != max_deg {
            proof {
                if self.spec_is_star() {
                    let h = choose|h: int| self.is_hub(h);
                    assert(self.is_hub(h));
                    assert forall|j: int| 0 <= j < ni && j != h implies self.cell(h, j) == 1 by {
                        assert(self.spec_edge(h, j));
                    }
                    self.lemma_nbr_count_full(h, ni);
                    assert forall|a: int| 0 <= a < ni && a != h implies #[trigger] self.nbr_count(
                        a,
                        ni,
                    ) == 1 by {
                        assert(self.spec_degree(a) == 1);
                    }
                    self.lemma_sum_deg_exact(ni, ni, h);
                    self.lemma_handshake(ni);
                    assert(false);
                }
            }
            return false;
        }
        let mut v: usize = 0;
        while v < n
            invariant
                self.wf(),
                n >= 1,
                ni == n as int,
                ni == self.spec_verts(),
                self.spec_edges() == ni - 1,
                max_deg as int == ni - 1,
                v <= n,
                forall|w: int|
                    0 <= w < v ==> #[trigger] self.nbr_count(w, ni) == 1 && self.nbr_count(w, ni)
                        != ni - 1,
            decreases n - v,
        {
            let deg: usize = self.degree(v).unwrap();
            let ghost vi = v as int;
            proof {
                assert(self.nbr_count(vi, ni) == deg as int);
            }
            if deg == max_deg {
                proof {
                    self.lemma_nbr_count_full(vi, ni);
                    assert forall|b: int| 0 <= b < ni && b != vi implies self.spec_edge(vi, b) by {
                        assert(self.cell(vi, b) == 1);
                    }
                    assert forall|w: int|
                        0 <= w < ni && w != vi implies #[trigger] self.spec_degree(w) == 1 by {
                        assert(ni >= 2);
                        assert forall|a: int| 0 <= a < ni implies #[trigger] self.nbr_count(a, ni)
                            >= 1 by {
                            if a != vi {
                                assert(self.spec_edge(vi, a));
                                self.adj_mat.lemma_symmetric(vi, a);
                                self.lemma_nbr_count_pos(a, vi, ni);
                            } else {
                                let w0: int = if vi == 0 {
                                    1int
                                } else {
                                    0int
                                };
                                assert(self.spec_edge(vi, w0));
                                self.lemma_nbr_count_pos(vi, w0, ni);
                            }
                        }
                        if self.nbr_count(w, ni) != 1 {
                            self.lemma_sum_deg_lb2(ni, ni, vi, w);
                            self.lemma_handshake(ni);
                            assert(false);
                        }
                    }
                    assert(self.is_hub(vi));
                }
                return true;
            } else if deg != 1 {
                proof {
                    if self.spec_is_star() {
                        let h = choose|h: int| self.is_hub(h);
                        assert(self.is_hub(h));
                        if h == vi {
                            assert forall|j: int|
                                0 <= j < ni && j != h implies self.cell(h, j) == 1 by {
                                assert(self.spec_edge(h, j));
                            }
                            self.lemma_nbr_count_full(h, ni);
                        } else {
                            assert(self.spec_degree(vi) == 1);
                        }
                        assert(false);
                    }
                }
                return false;
            }
            v = v + 1;
        }
        proof {
            self.lemma_sum_deg_exact(ni, ni, ni);
            self.lemma_handshake(ni);
            assert(ni == 2);
            assert(self.nbr_count(0, ni) == 1 && self.nbr_count(0, ni) != ni - 1);
            assert(false);
        }
        // Unreachable: a completed scan would mean every vertex has degree
        // one, which the edge-count prefilter rules out.
        false
    }

    /// A walk from `a` to `b`: a non-empty vertex sequence that starts at
    /// `a`, ends at `b`, stays in range and steps only along edges. A vertex
    /// may repeat: a walk need not be a simple path.
    pub open spec fn is_walk(self, w: Seq<usize>, a: usize, b: usize) -> bool {
        &&& w.len() >= 1
        &&& w[0] == a
        &&& w[w.len() - 1] == b
        &&& forall|k: int| 0 <= k < w.len() ==> (#[trigger] w[k]) < self.spec_verts()
        &&& forall|k: int|
            0 <= k < w.len() - 1 ==> self.spec_edge((#[trigger] w[k]) as int, w[k + 1] as int)
    }

    /// Whether some walk leads from `a` to `b`.
    pub open spec fn spec_reachable(self, a: usize, b: usize) -> bool {
        exists|w: Seq<usize>| #[trigger] self.is_walk(w, a, b)
    }

    /// A set of vertices that contains `a`, is closed under edges and has no
    /// member adjacent to `b` blocks every walk from `a` to `b`.
    proof fn lemma_walk_blocked(self, blist: Seq<usize>, w: Seq<usize>, a: usize, b: usize)
        requires
            a != b,
            blist.contains(a),
            forall|k: int|
                0 <= k < blist.len() ==> !self.spec_edge((#[trigger] blist[k]) as int, b as int),
            forall|x: int, y: int|
                0 <= x < self.spec_verts() && 0 <= y < self.spec_verts() && blist.contains(
                    x as usize,
                ) && #[trigger] self.spec_edge(x, y) ==> blist.contains(y as usize),
        ensures
            !self.is_walk(w, a, b),
        decreases w.len(),
    {
        if self.is_walk(w, a, b) {
            let k0 = choose|k: int| 0 <= k < blist.len() && blist[k] == a;
            assert(!self.spec_edge(a as int, b as int));
            assert(w.len() >= 2);
            assert(w[0] == a);
            assert(self.spec_edge(w[0] as int, w[1] as int));
            let nxt = w[1];
            assert(nxt != b);
            assert(blist.contains(nxt));
            let w2 = w.subrange(1, w.len() as int);
            assert(w2[0] == nxt && w2[w2.len() - 1] == b);
            assert forall|k: int| 0 <= k < w2.len() - 1 implies self.spec_edge(
                (#[trigger] w2[k]) as int,
                w2[k + 1] as int,
            ) by {
                assert(w2[k] == w[k + 1] && w2[k + 1] == w[k + 2]);
                assert(self.spec_edge(w[k + 1] as int, w[k + 2] as int));
            }
            self.lemma_walk_blocked(blist, w2, nxt, b);
            assert(false);
        }
    }

    /// Returns a walk from 'a' to 'b' or `None` if there is none. The search
    /// is depth first with backtracking; the walk it finds is valid but not
    /// necessarily shortest. For `a == b` the search runs unchanged, so it
    /// hands back a closed walk over some neighbor of `a` when `a` has one,
    /// and `None` when it has none.
    pub fn path(&self, a: usize, b: usize) -> (r: Option<Vec<usize>>)
        requires
            self.wf(),
            a < self.spec_verts(),
            b < self.spec_verts(),
        ensures
            r matches Some(p) ==> self.is_walk(p@, a, b) && p@.len() >= 2,
            a != b ==> (r is Some <==> self.spec_reachable(a, b)),
            a == b ==> (r is Some <==> exists|y: int|
                0 <= y < self.spec_verts() && self.spec_edge(a as int, y)),
    {
        let ghost n = self.spec_verts();
        proof {
            self.adj_mat.lemma_size_bounds();
        }
        let mut path_stack: Vec<usize> = Vec::new();
        path_stack.push(a);
        let mut blist: Vec<usize> = Vec::new();

        while path_stack.len() > 0
            invariant
                self.wf(),
                n == self.spec_verts(),
                n <= usize::MAX as int,
                a < n,
                b < n,
                forall|k: int| 0 <= k < path_stack@.len() ==> (#[trigger] path_stack@[k]) < n,
                path_stack@.len() > 0 ==> path_stack@[0] == a,
                forall|k: int|
                    0 <= k < path_stack@.len() - 1 ==> self.spec_edge(
                        (#[trigger] path_stack@[k]) as int,
                        path_stack@[k + 1] as int,
                    ),
                forall|k: int|
                    0 <= k < path_stack@.len() - 1 ==> blist@.contains(#[trigger] path_stack@[k]),
                strictly_ascending(blist@),
                forall|k: int| 0 <= k < blist@.len() ==> (#[trigger] blist@[k]) < n,
                blist@.len() <= n,
                forall|k: int|
                    0 <= k < blist@.len() ==> !self.spec_edge(
                        (#[trigger] blist@[k]) as int,
                        b as int,
                    ),
                forall|x: int, y: int|
                    0 <= x < n && 0 <= y < n && blist@.contains(x as usize)
                        && !path_stack@.contains(x as usize) && #[trigger] self.spec_edge(x, y)
                        ==> blist@.contains(y as usize),
                path_stack@.len() == 0 ==> blist@.contains(a),
            decreases
                    n - blist@.len(),
                    (if path_stack@.len() > 0 && !blist@.contains(path_stack@[path_stack@.len()
                        - 1]) {
                        0int
                    } else {
                        path_stack@.len() as int + 1
                    }),
        {
            let curr_vert: usize = path_stack[path_stack.len() - 1];
            if self.connected(curr_vert, b) {
                let ghost pre = path_stack@;
                path_stack.push(b);
                proof {
                    assert(path_stack@[0] == pre[0]);
                    assert forall|k: int| 0 <= k < path_stack@.len() - 1 implies self.spec_edge(
                        (#[trigger] path_stack@[k]) as int,
                        path_stack@[k + 1] as int,
                    ) by {
                        if k < pre.len() - 1 {
                            assert(path_stack@[k] == pre[k] && path_stack@[k + 1] == pre[k + 1]);
                        } else {
                            assert(path_stack@[k] == curr_vert && path_stack@[k + 1] == b);
                        }
                    }
                    assert(self.is_walk(path_stack@, a, b));
                    if a == b {
                        assert(curr_vert != b);
                        assert(pre.len() >= 2);
                        assert(path_stack@[0] == pre[0] && path_stack@[1] == pre[1]);
                        assert(self.spec_edge(path_stack@[0] as int, path_stack@[1] as int));
                    }
                }
                return Some(path_stack);
            }
            let neigh: Vec<usize> = self.nbhd(curr_vert);
            let new_vert: Option<usize> = Self::first_not_in(&neigh, &blist);

            let ghost stack_pre = path_stack@;
            let ghost blist_pre = blist@;
            let bitem: usize = match new_vert {
                Some(v) => {
                    path_stack.push(v);
                    curr_vert
                },
                None => path_stack.pop().unwrap(),
            };
            sorted_insert(&mut blist, bitem);
            proof {
                assert(bitem == stack_pre[stack_pre.len() - 1]);
                assert(bitem < n);
                assert(!self.spec_edge(bitem as int, b as int));
                // every member of the grown blacklist is still a vertex
                assert forall|k: int| 0 <= k < blist@.len() implies (#[trigger] blist@[k])
                    < n by {
                    let y = blist@[k];
                    assert(blist@.contains(y));
                    if y != bitem {
                        assert(blist_pre.contains(y));
                        let k0 = choose|k0: int| 0 <= k0 < blist_pre.len() && blist_pre[k0] == y;
                    }
                }
                lemma_ascending_len(blist@, n);
                // the blacklist keeps rejecting walks to `b`
                assert forall|k: int| 0 <= k < blist@.len() implies !self.spec_edge(
                    (#[trigger] blist@[k]) as int,
                    b as int,
                ) by {
                    let y = blist@[k];
                    assert(blist@.contains(y));
                    if y != bitem {
                        assert(blist_pre.contains(y));
                        let k0 = choose|k0: int| 0 <= k0 < blist_pre.len() && blist_pre[k0] == y;
                    }
                }
                // the blacklist stays closed under edges away from the stack
                assert forall|x: int, y: int|
                    0 <= x < n && 0 <= y < n && blist@.contains(x as usize)
                        && !path_stack@.contains(x as usize) && #[trigger] self.spec_edge(x, y)
                        implies blist@.contains(y as usize) by {
                    if new_vert is Some {
                        assert(path_stack@[path_stack@.len() - 2] == bitem);
                        assert(x as usize != bitem);
                        assert(blist_pre.contains(x as usize));
                        assert forall|k: int|
                            0 <= k < stack_pre.len() implies path_stack@.contains(
                            #[trigger] stack_pre[k]) by {
                            assert(path_stack@[k] == stack_pre[k]);
                        }
                        assert(!stack_pre.contains(x as usize));
                        assert(blist_pre.contains(y as usize));
                    } else {
                        if x as usize == bitem {
                            // every neighbor of the popped vertex is already
                            // blacklisted: that is why it was popped
                            assert(x == bitem as int);
                            assert(self.spec_edge(bitem as int, y));
                            assert(neigh@.contains(y as usize));
                            let k0 = choose|k0: int|
                                0 <= k0 < neigh@.len() && neigh@[k0] == y as usize;
                            assert(blist_pre.contains(y as usize));
                        } else {
                            if stack_pre.contains(x as usize) {
                                let k0 = choose|k0: int|
                                    0 <= k0 < stack_pre.len() && stack_pre[k0] == x as usize;
                                if k0 < stack_pre.len() - 1 {
                                    assert(path_stack@[k0] == stack_pre[k0]);
                                    assert(path_stack@.contains(x as usize));
                                }
                                assert(false);
                            }
                            assert(blist_pre.contains(x as usize));
                            assert(blist_pre.contains(y as usize));
                        }
                    }
                }
                // the stack below its top stays blacklisted, and its walk holds
                if new_vert is Some {
                    assert forall|k: int|
                        0 <= k < path_stack@.len() - 1 implies blist@.contains(
                        #[trigger] path_stack@[k]) by {
                        if k < stack_pre.len() - 1 {
                            assert(path_stack@[k] == stack_pre[k]);
                            assert(blist_pre.contains(stack_pre[k]));
                        } else {
                            assert(path_stack@[k] == bitem);
                        }
                    }
                    assert forall|k: int|
                        0 <= k < path_stack@.len() - 1 implies self.spec_edge(
                        (#[trigger] path_stack@[k]) as int,
                        path_stack@[k + 1] as int,
                    ) by {
                        if k < stack_pre.len() - 1 {
                            assert(path_stack@[k] == stack_pre[k] && path_stack@[k + 1]
                                == stack_pre[k + 1]);
                        } else {
                            let v = new_vert.unwrap();
                            assert(neigh@.contains(v));
                            let k0 = choose|k0: int| 0 <= k0 < neigh@.len() && neigh@[k0] == v;
                            assert(self.spec_edge(curr_vert as int, v as int));
                        }
                    }
                    assert(path_stack@[0] == stack_pre[0]);
                } else {
                    assert(path_stack@ == stack_pre.subrange(0, stack_pre.len() - 1));
                    assert forall|k: int|
                        0 <= k < path_stack@.len() - 1 implies blist@.contains(
                        #[trigger] path_stack@[k]) by {
                        assert(path_stack@[k] == stack_pre[k]);
                        assert(blist_pre.contains(stack_pre[k]));
                    }
                    if path_stack@.len() == 0 {
                        assert(bitem == a);
                    }
                }
                // termination: either the blacklist grew, or it stayed and
                // the stack moved toward a blacklisted shape
                if blist_pre.contains(bitem) {
                    assert(blist@ == blist_pre);
                    if new_vert is Some {
                        let v = new_vert.unwrap();
                        assert(path_stack@[path_stack@.len() - 1] == v);
                        assert(!blist@.contains(v));
                    } else {
                        if path_stack@.len() > 0 {
                            assert(blist@.contains(path_stack@[path_stack@.len() - 1]));
                        }
                    }
                } else {
                    assert(blist@.len() == blist_pre.len() + 1);
                }
            }
        }
        proof {
            if a != b && self.spec_reachable(a, b) {
                let w = choose|w: Seq<usize>| self.is_walk(w, a, b);
                self.lemma_walk_blocked(blist@, w, a, b);
            }
            if a == b && exists|y: int| 0 <= y < n && self.spec_edge(a as int, y) {
                let y = choose|y: int| 0 <= y < n && self.spec_edge(a as int, y);
                assert(!path_stack@.contains(a));
                assert(blist@.contains((a as int) as usize));
                assert(blist@.contains(y as usize));
                let k0 = choose|k0: int| 0 <= k0 < blist@.len() && blist@[k0] == y as usize;
                assert(!self.spec_edge((y as usize) as int, b as int));
                assert((y as usize) as int == y);
                self.lemma_edge_symmetric(a as int, y);
                assert(self.spec_edge(y, a as int));
                assert(false);
            }
        }
        None
    }

    /// First entry of `neigh` that the sorted list does not hold, if any.
    fn first_not_in(neigh: &Vec<usize>, blist: &Vec<usize>) -> (r: Option<usize>)
        requires
            strictly_ascending(blist@),
        ensures
            r matches Some(v) ==> neigh@.contains(v) && !blist@.contains(v),
            r is None ==> forall|k: int|
                0 <= k < neigh@.len() ==> blist@.contains(#[trigger] neigh@[k]),
    {
        let mut i: usize = 0;
        while i < neigh.len()
            invariant
                strictly_ascending(blist@),
                i <= neigh@.len(),
                forall|k: int| 0 <= k < i ==> blist@.contains(#[trigger] neigh@[k]),
            decreases neigh@.len() - i,
        {
            let v: usize = neigh[i];
            if !sorted_contains(blist, v) {
                proof {
                    assert(neigh@.contains(v)) by {
                        assert(neigh@[i as int] == v);
                    }
                }
                return Some(v);
            }
            i = i + 1;
        }
        None
    }

    /// An edge, once added, can never be added again: `connect` does not
    /// allow a pair that is already an edge.
    pub proof fn lemma_connect_only_once(self, a: int, b: int)
        requires
            self.spec_edge(a, b),
        ensures
            !self.can_connect(a, b),
    {
    }

    /// No vertex can ever be connected to itself.
    pub proof fn lemma_no_self_loop(self, a: int)
        ensures
            !self.can_connect(a, a),
    {
    }
}

} // verus!
