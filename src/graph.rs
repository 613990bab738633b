//! Compressed sparse row (CSR) adjacency structure.
//!
//! Node `i` owns the edges `edges[nodes[i] .. nodes[i + 1]]`, where the
//! offset past the last node is the total number of edges.

use vstd::prelude::*;

verus! {

/// Largest representable `u32`, used as the "no node" marker.
pub const U32_MAX: u32 = 0xFFFF_FFFF;

/// Dense index of a node (a page) within one graph.
#[derive(Debug, Clone, Copy, PartialEq, Eq, Structural, PartialOrd, Ord, Hash)]
pub struct NodeIdx(pub u32);

impl NodeIdx {
    /// The sentinel that stands for "no node".
    pub fn none() -> (r: NodeIdx)
        ensures
            r.0 == U32_MAX,
    {
        NodeIdx(U32_MAX)
    }

    pub open spec fn is_none_spec(self) -> bool {
        self.0 == U32_MAX
    }

    pub fn is_none(self) -> (r: bool)
        ensures
            r == self.is_none_spec(),
    {
        self.0 == U32_MAX
    }

    pub fn new(value: usize) -> (r: NodeIdx)
        requires
            value <= U32_MAX,
        ensures
            r.0 == value,
    {
        NodeIdx(value as u32)
    }

    pub fn usize(self) -> (r: usize)
        ensures
            r == self.0,
    {
        self.0 as usize
    }
}

/// Dense index of an edge (a link) within one graph.
#[derive(Debug, Clone, Copy, PartialEq, Eq, Structural, PartialOrd, Ord, Hash)]
pub struct EdgeIdx(pub u32);

impl EdgeIdx {
    pub fn new(value: usize) -> (r: EdgeIdx)
        requires
            value <= U32_MAX,
        ensures
            r.0 == value,
    {
        EdgeIdx(value as u32)
    }

    pub fn usize(self) -> (r: usize)
        ensures
            r == self.0,
    {
        self.0 as usize
    }
}

/// First edge of node `i` in a CSR offset array over `m` edges; one past the
/// last node it is `m`.
pub open spec fn csr_start(nodes: Seq<EdgeIdx>, m: int, i: int) -> int {
    if 0 <= i < nodes.len() {
        nodes[i].0 as int
    } else {
        m
    }
}

/// Offsets start at zero, never decrease and stay within the edge array.
pub open spec fn csr_offsets_ok(nodes: Seq<EdgeIdx>, m: int) -> bool {
    &&& (nodes.len() > 0 ==> nodes[0].0 == 0)
    &&& (nodes.len() == 0 ==> m == 0)
    &&& forall|i: int, j: int| 0 <= i <= j < nodes.len() ==> #[trigger] nodes[i].0 <= #[trigger] nodes[j].0
    &&& forall|i: int| 0 <= i < nodes.len() ==> #[trigger] nodes[i].0 <= m
}

/// Every edge points at an existing node.
pub open spec fn csr_targets_ok(edges: Seq<NodeIdx>, n: int) -> bool {
    forall|e: int| 0 <= e < edges.len() ==> #[trigger] edges[e].0 < n
}

/// The structural invariants of a CSR graph.
pub open spec fn csr_wf(nodes: Seq<EdgeIdx>, edges: Seq<NodeIdx>) -> bool {
    &&& nodes.len() < U32_MAX
    &&& edges.len() < U32_MAX
    &&& csr_offsets_ok(nodes, edges.len() as int)
    &&& csr_targets_ok(edges, nodes.len() as int)
}

pub struct Graph {
    /// A node points to the first of its edges; the run ends where the next
    /// node's run starts (or at the end of `edges` for the last node).
    pub nodes: Vec<EdgeIdx>,
    /// An edge points to its target node.
    pub edges: Vec<NodeIdx>,
}

impl Graph {
    pub open spec fn node_count(&self) -> int {
        self.nodes@.len() as int
    }

    pub open spec fn edge_count(&self) -> int {
        self.edges@.len() as int
    }

    /// First edge of node `i`; one past the last node it is the edge count.
    pub open spec fn start(&self, i: int) -> int {
        csr_start(self.nodes@, self.edges@.len() as int, i)
    }

    /// Outgoing edge targets of node `i`.
    pub open spec fn out(&self, i: int) -> Seq<NodeIdx> {
        self.edges@.subrange(self.start(i), self.start(i + 1))
    }

    /// Edge `e` leaves node `i`.
    pub open spec fn owns(&self, i: int, e: int) -> bool {
        self.start(i) <= e < self.start(i + 1)
    }

    /// The structural invariants of a graph.
    pub open spec fn wf(&self) -> bool {
        csr_wf(self.nodes@, self.edges@)
    }

    pub fn new() -> (r: Graph)
        ensures
            r.nodes@.len() == 0,
            r.edges@.len() == 0,
    {
        Graph { nodes: Vec::new(), edges: Vec::new() }
    }

    pub fn with_capacity(nodes: usize, edges: usize) -> (r: Graph)
        ensures
            r.nodes@.len() == 0,
            r.edges@.len() == 0,
    {
        Graph { nodes: Vec::with_capacity(nodes), edges: Vec::with_capacity(edges) }
    }

    /// Starts a new node whose edges are the ones added from now on.
    pub fn add_node(&mut self)
        requires
            old(self).edges@.len() <= U32_MAX,
        ensures
            final(self).nodes@ == old(self).nodes@.push(EdgeIdx(old(self).edges@.len() as u32)),
            final(self).edges@ == old(self).edges@,
    {
        let n = self.edges.len();
        self.nodes.push(EdgeIdx::new(n));
    }

    /// Appends an edge to the run of the most recently added node.
    pub fn add_edge(&mut self, target: NodeIdx)
        ensures
            final(self).nodes@ == old(self).nodes@,
            final(self).edges@ == old(self).edges@.push(target),
    {
        self.edges.push(target);
    }

    /// Checks the structural invariants over the whole graph.
    pub fn check_consistency(&self) -> (r: bool)
        ensures
            r == self.wf(),
    {
        let n = self.nodes.len();
        let m = self.edges.len();
        if n == 0 {
            return m == 0;
        }
        if n >= U32_MAX as usize || m >= U32_MAX as usize {
            return false;
        }
        if self.nodes[0].0 != 0 {
            return false;
        }
        let mut i: usize = 0;
        while i < n
            invariant
                0 <= i <= n,
                n == self.nodes@.len(),
                m == self.edges@.len(),
                self.nodes@[0].0 == 0,
                forall|a: int, b: int|
                    0 <= a <= b < i ==> #[trigger] self.nodes@[a].0 <= #[trigger] self.nodes@[b].0,
                forall|a: int| 0 <= a < i ==> #[trigger] self.nodes@[a].0 <= m,
            decreases n - i,
        {
            if self.nodes[i].0 as usize > m {
                return false;
            }
            if i > 0 && self.nodes[i - 1].0 > self.nodes[i].0 {
                return false;
            }
            i = i + 1;
        }
        let mut e: usize = 0;
        while e < m
            invariant
                0 <= e <= m,
                n == self.nodes@.len(),
                m == self.edges@.len(),
                forall|a: int| 0 <= a < e ==> #[trigger] self.edges@[a].0 < n,
            decreases m - e,
        {
            if self.edges[e].0 as usize >= n {
                return false;
            }
            e = e + 1;
        }
        true
    }

    /// Index of the first edge of `node`; past the last node, the edge count.
    pub fn edge_start(&self, node: NodeIdx) -> (r: EdgeIdx)
        requires
            self.edges@.len() <= U32_MAX,
        ensures
            r.0 == self.start(node.0 as int),
    {
        if (node.0 as usize) < self.nodes.len() {
            self.nodes[node.0 as usize]
        } else {
            EdgeIdx::new(self.edges.len())
        }
    }

    /// The range of edge indices that leave `node`.
    pub fn edge_range(&self, node: NodeIdx) -> (r: std::ops::Range<usize>)
        requires
            self.wf(),
            node.0 < self.node_count(),
        ensures
            r.start == self.start(node.0 as int),
            r.end == self.start(node.0 + 1),
            r.start <= r.end <= self.edge_count(),
    {
        let start = self.nodes[node.0 as usize];
        let end = self.edge_start(NodeIdx(node.0 + 1));
        start.usize()..end.usize()
    }

    /// The targets of the edges that leave `node`.
    pub fn edge_slice(&self, node: NodeIdx) -> (r: &[NodeIdx])
        requires
            self.wf(),
            node.0 < self.node_count(),
        ensures
            r@ == self.out(node.0 as int),
    {
        let range = self.edge_range(node);
        vstd::slice::slice_subrange(self.edges.as_slice(), range.start, range.end)
    }

    /// All node indices, in order.
    pub fn nodes(&self) -> (r: Vec<NodeIdx>)
        requires
            self.node_count() <= U32_MAX,
        ensures
            r@.len() == self.node_count(),
            forall|i: int| 0 <= i < r@.len() ==> #[trigger] r@[i].0 == i,
    {
        let n = self.nodes.len();
        let mut r: Vec<NodeIdx> = Vec::with_capacity(n);
        let mut i: usize = 0;
        while i < n
            invariant
                0 <= i <= n,
                n == self.nodes@.len(),
                n <= U32_MAX,
                r@.len() == i,
                forall|k: int| 0 <= k < i ==> #[trigger] r@[k].0 == k,
            decreases n - i,
        {
            r.push(NodeIdx::new(i));
            i = i + 1;
        }
        r
    }

    /// The edges that leave `node`, each with its index and target.
    pub fn edges_for(&self, node: NodeIdx) -> (r: Vec<(EdgeIdx, NodeIdx)>)
        requires
            self.wf(),
            node.0 < self.node_count(),
        ensures
            r@.len() == self.start(node.0 + 1) - self.start(node.0 as int),
            forall|k: int|
                0 <= k < r@.len() ==> {
                    let e = self.start(node.0 as int) + k;
                    &&& (#[trigger] r@[k]).0.0 == e
                    &&& r@[k].1 == self.edges@[e]
                },
    {
        let range = self.edge_range(node);
        let mut r: Vec<(EdgeIdx, NodeIdx)> = Vec::new();
        let mut e = range.start;
        while e < range.end
            invariant
                self.wf(),
                range.start <= e <= range.end <= self.edge_count(),
                range.start == self.start(node.0 as int),
                range.end == self.start(node.0 + 1),
                r@.len() == e - range.start,
                forall|k: int|
                    0 <= k < r@.len() ==> {
                        let x = range.start + k;
                        &&& (#[trigger] r@[k]).0.0 == x
                        &&& r@[k].1 == self.edges@[x]
                    },
            decreases range.end - e,
        {
            r.push((EdgeIdx::new(e), self.edges[e]));
            e = e + 1;
        }
        r
    }

    /// Every edge as a `(source, target)` pair, in edge order.
    pub fn edges(&self) -> (r: Vec<(NodeIdx, NodeIdx)>)
        requires
            self.wf(),
        ensures
            r@.len() == self.edge_count(),
            forall|e: int|
                0 <= e < r@.len() ==> {
                    &&& (#[trigger] r@[e]).1 == self.edges@[e]
                    &&& 0 <= r@[e].0.0 < self.node_count()
                    &&& self.owns(r@[e].0.0 as int, e)
                },
    {
        let n = self.nodes.len();
        let mut r: Vec<(NodeIdx, NodeIdx)> = Vec::with_capacity(self.edges.len());
        let mut ni: usize = 0;
        while ni < n
            invariant
                self.wf(),
                n == self.node_count(),
                0 <= ni <= n,
                r@.len() == self.start(ni as int),
                forall|e: int|
                    0 <= e < r@.len() ==> {
                        &&& (#[trigger] r@[e]).1 == self.edges@[e]
                        &&& 0 <= r@[e].0.0 < self.node_count()
                        &&& self.owns(r@[e].0.0 as int, e)
                    },
            decreases n - ni,
        {
            let range = self.edge_range(NodeIdx::new(ni));
            let mut ei = range.start;
            while ei < range.end
                invariant
                    self.wf(),
                    n == self.node_count(),
                    0 <= ni < n,
                    range.start == self.start(ni as int),
                    range.end == self.start(ni + 1),
                    range.start <= ei <= range.end <= self.edge_count(),
                    r@.len() == ei,
                    forall|e: int|
                        0 <= e < r@.len() ==> {
                            &&& (#[trigger] r@[e]).1 == self.edges@[e]
                            &&& 0 <= r@[e].0.0 < self.node_count()
                            &&& self.owns(r@[e].0.0 as int, e)
                        },
                decreases range.end - ei,
            {
                r.push((NodeIdx::new(ni), self.edges[ei]));
                ei = ei + 1;
            }
            ni = ni + 1;
        }
        r
    }
}

} // verus!
