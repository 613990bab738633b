//! Path queries on a graph store, built on the shortest-path engine.

use vstd::prelude::*;

use crate::algo::{optimal, walk_cost, is_walk, Dijkstra};
use crate::data::{Data, DataView};
use crate::edit::{lemma_src_of, owner, src_of};
use crate::graph::{Graph, NodeIdx, U32_MAX};

verus! {

/// Cost of leaving a page: nothing through a redirect, one step otherwise.
pub open spec fn step_cost(d: DataView, i: int) -> u32 {
    if d.pages[i].redirect {
        0
    } else {
        1
    }
}

/// The cost of each edge: that of leaving its source page.
pub fn redirect_costs(data: &Data) -> (r: Vec<u32>)
    requires
        data.wf(),
    ensures
        r@.len() == data@.edges.len(),
        forall|i: int, e: int|
            0 <= i < data@.pages.len() && #[trigger] data.graph.owns(i, e) ==> r@[e] == step_cost(data@, i),
{
    let n = data.pages.len();
    let mut r: Vec<u32> = Vec::with_capacity(data.links.len());
    let mut i: usize = 0;
    while i < n
        invariant
            data.wf(),
            n == data@.pages.len(),
            0 <= i <= n,
            r@.len() == data.graph.start(i as int),
            forall|j: int, e: int|
                0 <= j < i && #[trigger] data.graph.owns(j, e) ==> r@[e] == step_cost(data@, j),
        decreases n - i,
    {
        let range = data.graph.edge_range(NodeIdx::new(i));
        let c: u32 = if data.pages[i].redirect { 0 } else { 1 };
        assert(data@.pages[i as int] == data.pages@[i as int]@);
        let mut e = range.start;
        while e < range.end
            invariant
                data.wf(),
                n == data@.pages.len(),
                0 <= i < n,
                c == step_cost(data@, i as int),
                range.start == data.graph.start(i as int),
                range.end == data.graph.start(i + 1),
                range.start <= e <= range.end,
                r@.len() == e,
                forall|j: int, x: int|
                    0 <= j < i && #[trigger] data.graph.owns(j, x) ==> r@[x] == step_cost(data@, j),
                forall|x: int| range.start <= x < e ==> #[trigger] r@[x] == c,
            decreases range.end - e,
        {
            r.push(c);
            e = e + 1;
        }
        proof {
            assert forall|j: int, x: int|
                0 <= j < i + 1 && #[trigger] data.graph.owns(j, x) implies r@[x] == step_cost(data@, j) by {
                if j < i {
                    assert(data.graph.start(j + 1) <= data.graph.start(i as int));
                }
            }
        }
        i = i + 1;
    }
    r
}

/// Consecutive nodes of `p` are joined by an edge of `g`.
pub open spec fn linked(g: &Graph, p: Seq<NodeIdx>) -> bool {
    forall|k: int|
        0 <= k < p.len() - 1 ==> exists|e: int| g.owns((#[trigger] p[k]).0 as int, e) && g.edges@[e] == p[k + 1]
}

/// Shortest path from `start` to `goal` when leaving a redirect costs
/// nothing and leaving an article costs one: its cost and its nodes, or
/// `None` when no walk reaches the goal.
pub fn search_path(data: &Data, start: NodeIdx, goal: NodeIdx) -> (r: Option<(u32, Vec<NodeIdx>)>)
    requires
        data.wf(),
        start.0 < data@.pages.len(),
        goal.0 < data@.pages.len(),
    ensures
        match r {
            None => forall|ns: Seq<int>, es: Seq<int>|
                #[trigger] is_walk(&data.graph, ns, es) && ns[0] == start.0 && ns.last() == goal.0
                    ==> walk_cost(redirect_costs_spec(data@), es) >= U32_MAX,
            Some((c, p)) => {
                &&& c < U32_MAX
                &&& optimal(&data.graph, redirect_costs_spec(data@), start.0 as int, goal.0 as int, c)
                &&& p@.len() >= 1
                &&& p@[0] == start
                &&& p@.last() == goal
                &&& linked(&data.graph, p@)
                &&& exists|es: Seq<int>|
                    is_walk(&data.graph, node_ints(p@), es) && walk_cost(redirect_costs_spec(data@), es) <= c
            },
        },
{
    let costs = redirect_costs(data);
    proof {
        lemma_redirect_costs(data, costs@);
    }
    let mut dijkstra = Dijkstra::new(&data.graph);
    dijkstra.run(start, Some(goal), costs.as_slice());
    let cost = dijkstra.cost(goal);
    if cost == U32_MAX {
        return None;
    }
    let path = dijkstra.path(goal);
    proof {
        lemma_path_from_start(&dijkstra, costs@, start.0 as int, path@);
        lemma_path_cost(&dijkstra, costs@, start.0 as int, path@);
    }
    Some((cost, path))
}

proof fn lemma_reached_back(dj: &Dijkstra, ec: Seq<u32>, s: int, p: Seq<NodeIdx>, k: int)
    requires
        dj.sound(ec, s),
        dj.graph().wf(),
        0 <= s < dj.graph().node_count(),
        p.len() >= 1,
        0 <= k < p.len(),
        dj.costs()[p.last().0 as int] != U32_MAX,
        forall|j: int| 0 <= j < p.len() ==> (#[trigger] p[j]).0 < dj.graph().node_count(),
        forall|j: int| 0 < j < p.len() ==> dj.preds()[(#[trigger] p[j]).0 as int] == p[j - 1],
    ensures
        dj.costs()[p[k].0 as int] != U32_MAX,
        k >= 1 ==> p[k].0 != s,
    decreases p.len() - k,
{
    if k < p.len() - 1 {
        lemma_reached_back(dj, ec, s, p, k + 1);
        let v = p[k + 1].0 as int;
        assert(dj.preds()[v] == p[k]);
        assert(v != s) by {
            assert(p[k].0 < dj.graph().node_count());
        }
        if k >= 1 {
            assert(dj.preds()[p[k].0 as int] == p[k - 1]);
            assert(p[k - 1].0 < dj.graph().node_count());
        }
    } else if k >= 1 {
        assert(dj.preds()[p[k].0 as int] == p[k - 1]);
        assert(p[k - 1].0 < dj.graph().node_count());
    }
}

/// A predecessor path that ends at a reached node starts at the start and
/// follows edges of the graph.
pub proof fn lemma_path_from_start(dj: &Dijkstra, ec: Seq<u32>, s: int, p: Seq<NodeIdx>)
    requires
        dj.sound(ec, s),
        dj.graph().wf(),
        0 <= s < dj.graph().node_count(),
        p.len() >= 1,
        dj.costs()[p.last().0 as int] != U32_MAX,
        dj.preds()[p[0].0 as int].is_none_spec(),
        forall|j: int| 0 <= j < p.len() ==> (#[trigger] p[j]).0 < dj.graph().node_count(),
        forall|j: int| 0 < j < p.len() ==> dj.preds()[(#[trigger] p[j]).0 as int] == p[j - 1],
    ensures
        p[0].0 == s,
        linked(dj.graph(), p),
{
    lemma_reached_back(dj, ec, s, p, 0);
    assert forall|k: int| 0 <= k < p.len() - 1 implies exists|e: int|
        dj.graph().owns((#[trigger] p[k]).0 as int, e) && dj.graph().edges@[e] == p[k + 1] by {
        lemma_reached_back(dj, ec, s, p, k + 1);
        let v = p[k + 1].0 as int;
        let e = dj.via(v);
        assert(dj.preds()[v] == p[k]);
        assert(dj.graph().edges@[e].0 == v);
        assert(dj.graph().edges@[e] == p[k + 1]);
    }
}

/// The node indices of `p` as integers.
pub open spec fn node_ints(p: Seq<NodeIdx>) -> Seq<int> {
    p.map_values(|n: NodeIdx| n.0 as int)
}

/// A predecessor path from the start to a reached node is a walk whose
/// cost is at most the node's recorded cost.
pub proof fn lemma_path_cost(dj: &Dijkstra, ec: Seq<u32>, s: int, p: Seq<NodeIdx>)
    requires
        dj.sound(ec, s),
        dj.graph().wf(),
        0 <= s < dj.graph().node_count(),
        p.len() >= 1,
        p[0].0 == s,
        dj.costs()[p.last().0 as int] != U32_MAX,
        forall|j: int| 0 <= j < p.len() ==> (#[trigger] p[j]).0 < dj.graph().node_count(),
        forall|j: int| 0 < j < p.len() ==> dj.preds()[(#[trigger] p[j]).0 as int] == p[j - 1],
    ensures
        exists|es: Seq<int>|
            is_walk(dj.graph(), node_ints(p), es) && walk_cost(ec, es) <= dj.costs()[p.last().0 as int],
{
    let es = Seq::new((p.len() - 1) as nat, |k: int| dj.via(p[k + 1].0 as int));
    let ns = node_ints(p);
    let g = dj.graph();
    assert forall|k: int| 0 <= k < es.len() implies {
        &&& 0 <= #[trigger] ns[k] < g.node_count()
        &&& g.owns(ns[k], es[k])
        &&& g.edges@[es[k]].0 == ns[k + 1]
    } by {
        lemma_reached_back(dj, ec, s, p, k + 1);
        assert(dj.preds()[p[k + 1].0 as int] == p[k]);
    }
    assert(is_walk(g, ns, es));
    lemma_prefix_cost(dj, ec, s, p, es, es.len() as int);
    assert(es.subrange(0, es.len() as int) =~= es);
    assert(p[es.len() as int] == p.last());
}

proof fn lemma_prefix_cost(dj: &Dijkstra, ec: Seq<u32>, s: int, p: Seq<NodeIdx>, es: Seq<int>, m: int)
    requires
        0 <= m <= es.len(),
        es.len() == p.len() - 1,
        dj.sound(ec, s),
        dj.graph().wf(),
        0 <= s < dj.graph().node_count(),
        p.len() >= 1,
        p[0].0 == s,
        dj.costs()[p.last().0 as int] != U32_MAX,
        forall|j: int| 0 <= j < p.len() ==> (#[trigger] p[j]).0 < dj.graph().node_count(),
        forall|j: int| 0 < j < p.len() ==> dj.preds()[(#[trigger] p[j]).0 as int] == p[j - 1],
        forall|k: int| 0 <= k < es.len() ==> #[trigger] es[k] == dj.via(p[k + 1].0 as int),
    ensures
        walk_cost(ec, es.subrange(0, m)) <= dj.costs()[p[m].0 as int],
    decreases m,
{
    if m == 0 {
        assert(es.subrange(0, 0) =~= Seq::<int>::empty());
    } else {
        lemma_prefix_cost(dj, ec, s, p, es, m - 1);
        lemma_reached_back(dj, ec, s, p, m);
        assert(dj.preds()[p[m].0 as int] == p[m - 1]);
        assert(es.subrange(0, m).drop_last() =~= es.subrange(0, m - 1));
    }
}

/// The edge costs of `redirect_costs`, as a sequence.
pub open spec fn redirect_costs_spec(d: DataView) -> Seq<u32> {
    Seq::new(d.edges.len(), |e: int| step_cost(d, src_of(d, e)))
}

proof fn lemma_redirect_costs(data: &Data, r: Seq<u32>)
    requires
        data.wf(),
        r.len() == data@.edges.len(),
        forall|i: int, e: int|
            0 <= i < data@.pages.len() && #[trigger] data.graph.owns(i, e) ==> r[e] == step_cost(data@, i),
    ensures
        r == redirect_costs_spec(data@),
{
    let d = data@;
    assert forall|e: int| 0 <= e < r.len() implies r[e] == redirect_costs_spec(d)[e] by {
        lemma_owner_exists(d, e);
        let i = choose|i: int| owner(d, i, e);
        lemma_src_of(d, i, e);
        assert(data.graph.owns(i, e));
    }
    assert(r =~= redirect_costs_spec(d));
}

/// Every edge belongs to some node.
pub proof fn lemma_owner_exists(d: DataView, e: int)
    requires
        d.well_formed(),
        0 <= e < d.edges.len(),
    ensures
        exists|i: int| owner(d, i, e),
{
    let n = d.pages.len() as int;
    assert(d.start(0) == 0);
    assert(d.start(n) == d.edges.len());
    lemma_owner_search(d, e, 0, n);
}

proof fn lemma_owner_search(d: DataView, e: int, lo: int, hi: int)
    requires
        d.well_formed(),
        0 <= lo < hi <= d.pages.len(),
        d.start(lo) <= e < d.start(hi),
    ensures
        exists|i: int| owner(d, i, e),
    decreases hi - lo,
{
    if hi - lo > 1 {
        let mid = lo + (hi - lo) / 2;
        if e < d.start(mid) {
            lemma_owner_search(d, e, lo, mid);
        } else {
            lemma_owner_search(d, e, mid, hi);
        }
    } else {
        assert(owner(d, lo, e));
    }
}

} // verus!
