//! A catalog of fixed example graphs: construction inputs (vertex count and
//! edge list) for the graph type, used by tests and demos.

use vstd::prelude::*;
use crate::utgraph::pair_valid;
use crate::utgraph::pairs_distinct;

verus! {

/// The construction input of one graph: a vertex count and an edge list.
pub struct GraphData {
    verts: usize,
    edges: Vec<(usize, usize)>,
}

impl GraphData {
    /// The vertex count of the described graph.
    pub closed spec fn spec_verts(self) -> int {
        self.verts as int
    }

    /// The edge list of the described graph.
    pub closed spec fn spec_edges(self) -> Seq<(usize, usize)> {
        self.edges@
    }

    /// The data is a valid construction input: every pair joins two distinct
    /// in-range vertices, no unordered pair repeats, and the vertex count is
    /// small enough for the packed matrix.
    pub open spec fn wf(self) -> bool {
        &&& self.spec_verts() * (self.spec_verts() + 1) <= usize::MAX as int
        &&& forall|k: int|
            0 <= k < self.spec_edges().len() ==> pair_valid(
                #[trigger] self.spec_edges()[k],
                self.spec_verts(),
            )
        &&& pairs_distinct(self.spec_edges())
    }

    pub fn verts(&self) -> (r: usize)
        ensures
            r == self.spec_verts(),
    {
        self.verts
    }

    pub fn edges(&self) -> (r: &[(usize, usize)])
        ensures
            r@ == self.spec_edges(),
    {
        self.edges.as_slice()
    }
}

/// The fixed example graphs: two stars, one tree-like graph, one graph with
/// no edges, one with a cycle, and a larger graph with an isolated vertex.
pub fn graphs() -> (r: [GraphData; 6])
    ensures
        r@[0].spec_verts() == 3,
        r@[0].spec_edges() == seq![(0usize, 2usize), (1usize, 2usize)],
        r@[1].spec_verts() == 6,
        r@[1].spec_edges() == seq![
            (0usize, 1usize),
            (0usize, 2usize),
            (0usize, 3usize),
            (2usize, 4usize),
            (3usize, 4usize),
        ],
        r@[2].spec_verts() == 4,
        r@[2].spec_edges() == Seq::<(usize, usize)>::empty(),
        r@[3].spec_verts() == 4,
        r@[3].spec_edges() == seq![(0usize, 2usize), (1usize, 2usize), (3usize, 2usize)],
        r@[4].spec_verts() == 4,
        r@[4].spec_edges() == seq![
            (0usize, 2usize),
            (1usize, 2usize),
            (3usize, 2usize),
            (0usize, 1usize),
        ],
        r@[5].spec_verts() == 12,
        r@[5].spec_edges() == seq![
            (0usize, 1usize),
            (0usize, 2usize),
            (0usize, 3usize),
            (2usize, 3usize),
            (3usize, 4usize),
            (3usize, 5usize),
            (5usize, 6usize),
            (6usize, 7usize),
            (6usize, 8usize),
            (6usize, 9usize),
            (8usize, 10usize),
            (9usize, 10usize),
            (10usize, 4usize),
        ],
{
    //    [2]
    //    / \
    // [0]   [1]
    let mut e1: Vec<(usize, usize)> = Vec::new();
    e1.push((0, 2));
    e1.push((1, 2));
    let graph1 = GraphData { verts: 3, edges: e1 };

    //     [0]       [5]
    //    / | \
    // [1] [2] [3]
    //       \ /
    //       [4]
    let mut e2: Vec<(usize, usize)> = Vec::new();
    e2.push((0, 1));
    e2.push((0, 2));
    e2.push((0, 3));
    e2.push((2, 4));
    e2.push((3, 4));
    let graph2 = GraphData { verts: 6, edges: e2 };

    // [0] [1] [2] [3]
    let e3: Vec<(usize, usize)> = Vec::new();
    let graph3 = GraphData { verts: 4, edges: e3 };

    // [0]   [1]
    //   \   /
    //    [2]
    //     |
    //    [3]
    let mut e4: Vec<(usize, usize)> = Vec::new();
    e4.push((0, 2));
    e4.push((1, 2));
    e4.push((3, 2));
    let graph4 = GraphData { verts: 4, edges: e4 };

    // [0]---[1]
    //   \   /
    //    [2]
    //     |
    //    [3]
    let mut e5: Vec<(usize, usize)> = Vec::new();
    e5.push((0, 2));
    e5.push((1, 2));
    e5.push((3, 2));
    e5.push((0, 1));
    let graph5 = GraphData { verts: 4, edges: e5 };

    //     [0]     _[5]--[6]--[7]   [11]
    //    / | \   /      / \
    // [1] [2] [3]     [8] [9]
    //       \ /         \ /
    //       [4]--------[10]
    //
    let mut e6: Vec<(usize, usize)> = Vec::new();
    e6.push((0, 1));
    e6.push((0, 2));
    e6.push((0, 3));
    e6.push((2, 3));
    e6.push((3, 4));
    e6.push((3, 5));
    e6.push((5, 6));
    e6.push((6, 7));
    e6.push((6, 8));
    e6.push((6, 9));
    e6.push((8, 10));
    e6.push((9, 10));
    e6.push((10, 4));
    let graph6 = GraphData { verts: 12, edges: e6 };

    let r = [graph1, graph2, graph3, graph4, graph5, graph6];
    proof {
        assert(r@[0].spec_edges() =~= seq![(0usize, 2usize), (1usize, 2usize)]);
        assert(r@[1].spec_edges() =~= seq![
            (0usize, 1usize),
            (0usize, 2usize),
            (0usize, 3usize),
            (2usize, 4usize),
            (3usize, 4usize),
        ]);
        assert(r@[2].spec_edges() =~= Seq::<(usize, usize)>::empty());
        assert(r@[3].spec_edges() =~= seq![(0usize, 2usize), (1usize, 2usize), (3usize, 2usize)]);
        assert(r@[4].spec_edges() =~= seq![
            (0usize, 2usize),
            (1usize, 2usize),
            (3usize, 2usize),
            (0usize, 1usize),
        ]);
        assert(r@[5].spec_edges() =~= seq![
            (0usize, 1usize),
            (0usize, 2usize),
            (0usize, 3usize),
            (2usize, 3usize),
            (3usize, 4usize),
            (3usize, 5usize),
            (5usize, 6usize),
            (6usize, 7usize),
            (6usize, 8usize),
            (6usize, 9usize),
            (8usize, 10usize),
            (9usize, 10usize),
            (10usize, 4usize),
        ]);
    }
    r
}

} // verus!
