//! Single-source shortest paths (Dijkstra) with per-edge costs and an
//! optional goal for early termination.

use vstd::prelude::*;

use crate::graph::{Graph, NodeIdx, U32_MAX};
use crate::queue::{entry_le, MinQueue};

verus! {

/// A queue entry: a node with the cost at which it was reached.
#[derive(Debug, Clone, Copy, PartialEq, Eq, Structural)]
pub struct Entry {
    pub cost: u32,
    pub idx: NodeIdx,
}

impl Entry {
    pub fn new(cost: u32, idx: NodeIdx) -> (r: Entry)
        ensures
            r.cost == cost,
            r.idx == idx,
    {
        Entry { cost, idx }
    }
}

/// `ns` is a walk in `g` along the edges `es`: `es[k]` leaves `ns[k]` and
/// enters `ns[k + 1]`.
pub open spec fn is_walk(g: &Graph, ns: Seq<int>, es: Seq<int>) -> bool {
    &&& ns.len() == es.len() + 1
    &&& forall|k: int|
        0 <= k < es.len() ==> {
            &&& 0 <= #[trigger] ns[k] < g.node_count()
            &&& g.owns(ns[k], es[k])
            &&& g.edges@[es[k]].0 == ns[k + 1]
        }
}

/// Sum of the costs of the edges `es`.
pub open spec fn walk_cost(ec: Seq<u32>, es: Seq<int>) -> int
    decreases es.len(),
{
    if es.len() == 0 {
        0
    } else {
        walk_cost(ec, es.drop_last()) + ec[es.last()]
    }
}

/// Every edge out of `u` is relaxed: following it does not beat the cost
/// recorded at its target.
pub open spec fn relaxed(g: &Graph, ec: Seq<u32>, cost: Seq<u32>, u: int) -> bool {
    forall|e: int|
        g.owns(u, e) && cost[u] + ec[e] < U32_MAX ==> #[trigger] cost[g.edges@[e].0 as int] <= cost[u]
            + ec[e]
}

/// Every node reached so far is either waiting in the queue with its cost
/// or has all its edges relaxed.
pub open spec fn queued_or_relaxed(g: &Graph, ec: Seq<u32>, cost: Seq<u32>, q: Seq<Entry>) -> bool {
    forall|u: int|
        0 <= u < g.node_count() && #[trigger] cost[u] != U32_MAX ==> q.contains(
            Entry { cost: cost[u], idx: NodeIdx(u as u32) },
        ) || relaxed(g, ec, cost, u)
}

/// Cost `c` of node `v` is no larger than the cost of any walk from
/// `start` to `v` that costs less than the "unreached" marker.
pub open spec fn optimal(g: &Graph, ec: Seq<u32>, start: int, v: int, c: u32) -> bool {
    forall|ns: Seq<int>, es: Seq<int>|
        #[trigger] is_walk(g, ns, es) && ns[0] == start && ns.last() == v && walk_cost(ec, es)
            < U32_MAX ==> c <= walk_cost(ec, es)
}

pub open spec fn sum(s: Seq<u32>) -> int
    decreases s.len(),
{
    if s.len() == 0 {
        0
    } else {
        sum(s.drop_last()) + s.last()
    }
}

proof fn lemma_sum_update(s: Seq<u32>, i: int, x: u32)
    requires
        0 <= i < s.len(),
    ensures
        sum(s.update(i, x)) == sum(s) - s[i] + x,
    decreases s.len(),
{
    if i < s.len() - 1 {
        lemma_sum_update(s.drop_last(), i, x);
        assert(s.update(i, x).drop_last() =~= s.drop_last().update(i, x));
    } else {
        assert(s.update(i, x).drop_last() =~= s.drop_last());
    }
}

proof fn lemma_sum_nonneg(s: Seq<u32>)
    ensures
        sum(s) >= 0,
    decreases s.len(),
{
    if s.len() > 0 {
        lemma_sum_nonneg(s.drop_last());
    }
}

proof fn lemma_walk_cost_nonneg(ec: Seq<u32>, es: Seq<int>)
    ensures
        walk_cost(ec, es) >= 0,
    decreases es.len(),
{
    if es.len() > 0 {
        lemma_walk_cost_nonneg(ec, es.drop_last());
    }
}

/// Along a walk from `start`, either the recorded cost at its end is at most
/// the walk's cost, or some queue entry costs at most that much.
proof fn lemma_walk_bound(
    g: &Graph,
    ec: Seq<u32>,
    cost: Seq<u32>,
    q: Seq<Entry>,
    start: int,
    ns: Seq<int>,
    es: Seq<int>,
)
    requires
        g.wf(),
        cost.len() == g.node_count(),
        ec.len() == g.edge_count(),
        0 <= start < g.node_count(),
        cost[start] == 0,
        queued_or_relaxed(g, ec, cost, q),
        is_walk(g, ns, es),
        ns[0] == start,
        walk_cost(ec, es) < U32_MAX,
    ensures
        cost[ns.last()] <= walk_cost(ec, es) || exists|x: Entry|
            #[trigger] q.contains(x) && x.cost <= walk_cost(ec, es),
    decreases es.len(),
{
    if es.len() > 0 {
        let ns2 = ns.drop_last();
        let es2 = es.drop_last();
        assert(is_walk(g, ns2, es2)) by {
            assert forall|k: int| 0 <= k < es2.len() implies {
                &&& 0 <= #[trigger] ns2[k] < g.node_count()
                &&& g.owns(ns2[k], es2[k])
                &&& g.edges@[es2[k]].0 == ns2[k + 1]
            } by {
                assert(ns2[k] == ns[k]);
                assert(es2[k] == es[k]);
                assert(ns2[k + 1] == ns[k + 1]);
            }
        }
        lemma_walk_cost_nonneg(ec, es2);
        let w = walk_cost(ec, es);
        let w2 = walk_cost(ec, es2);
        assert(w == w2 + ec[es.last()]);
        lemma_walk_bound(g, ec, cost, q, start, ns2, es2);
        let k = es.len() - 1;
        let u = ns[k];
        assert(ns2.last() == u);
        assert(0 <= u < g.node_count() && g.owns(u, es[k]) && g.edges@[es[k]].0 == ns[k + 1]);
        assert(0 <= es[k] < g.edge_count()) by {
            assert(g.start(u) <= es[k] < g.start(u + 1));
            assert(g.start(u + 1) <= g.edge_count());
        }
        if cost[u] <= w2 {
            if q.contains(Entry { cost: cost[u], idx: NodeIdx(u as u32) }) {
                assert(q.contains(Entry { cost: cost[u], idx: NodeIdx(u as u32) }) && cost[u] <= w);
            } else {
                assert(relaxed(g, ec, cost, u));
                assert(cost[g.edges@[es[k]].0 as int] <= cost[u] + ec[es[k]]);
            }
        } else {
            let x = choose|x: Entry| #[trigger] q.contains(x) && x.cost <= w2;
            assert(q.contains(x) && x.cost <= w);
        }
    }
}


/// `queued_or_relaxed` for every node but `skip`.
pub open spec fn queued_or_relaxed_except(
    g: &Graph,
    ec: Seq<u32>,
    cost: Seq<u32>,
    q: Seq<Entry>,
    skip: int,
) -> bool {
    forall|w: int|
        0 <= w < g.node_count() && w != skip && #[trigger] cost[w] != U32_MAX ==> q.contains(
            Entry { cost: cost[w], idx: NodeIdx(w as u32) },
        ) || relaxed(g, ec, cost, w)
}

/// Taking entry `r` out of the queue keeps every other node queued or
/// relaxed, and the popped node too when the entry was outdated.
proof fn lemma_pop_keeps(g: &Graph, ec: Seq<u32>, cost: Seq<u32>, q: Seq<Entry>, q2: Seq<Entry>, r: Entry)
    requires
        g.wf(),
        cost.len() == g.node_count(),
        r.idx.0 < cost.len(),
        queued_or_relaxed(g, ec, cost, q),
        forall|x: Entry| #[trigger] q.contains(x) && x != r ==> q2.contains(x),
    ensures
        queued_or_relaxed_except(g, ec, cost, q2, r.idx.0 as int),
        r.cost != cost[r.idx.0 as int] ==> queued_or_relaxed(g, ec, cost, q2),
{
    assert forall|w: int|
        0 <= w < g.node_count() && #[trigger] cost[w] != U32_MAX && (w != r.idx.0 || r.cost != cost[w])
        implies q2.contains(Entry { cost: cost[w], idx: NodeIdx(w as u32) }) || relaxed(g, ec, cost, w) by {
        let x = Entry { cost: cost[w], idx: NodeIdx(w as u32) };
        if q.contains(x) {
            assert(x != r);
        }
    }
}

/// Lowering the cost of `v` and queueing it keeps every node but `u`
/// queued or relaxed.
proof fn lemma_push_keeps(
    g: &Graph,
    ec: Seq<u32>,
    cost: Seq<u32>,
    q: Seq<Entry>,
    q2: Seq<Entry>,
    u: int,
    v: int,
    next: u32,
)
    requires
        g.wf(),
        cost.len() == g.node_count(),
        0 <= v < cost.len(),
        next < cost[v],
        queued_or_relaxed_except(g, ec, cost, q, u),
        forall|x: Entry| #[trigger] q2.contains(x) <==> q.contains(x) || x == (Entry { cost: next, idx: NodeIdx(v as u32) }),
    ensures
        queued_or_relaxed_except(g, ec, cost.update(v, next), q2, u),
{
    let c2 = cost.update(v, next);
    assert forall|w: int|
        0 <= w < g.node_count() && w != u && #[trigger] c2[w] != U32_MAX implies q2.contains(
        Entry { cost: c2[w], idx: NodeIdx(w as u32) },
    ) || relaxed(g, ec, c2, w) by {
        if w == v {
            assert(q2.contains(Entry { cost: c2[w], idx: NodeIdx(w as u32) }));
        } else {
            let x = Entry { cost: c2[w], idx: NodeIdx(w as u32) };
            if q.contains(x) {
                assert(q2.contains(x));
            } else {
                assert(relaxed(g, ec, cost, w));
                assert forall|y: int|
                    g.owns(w, y) && c2[w] + ec[y] < U32_MAX implies #[trigger] c2[g.edges@[y].0 as int]
                        <= c2[w] + ec[y] by {
                    assert(cost[g.edges@[y].0 as int] <= cost[w] + ec[y]);
                }
            }
        }
    }
}

/// Shortest-path state over one graph: the best known cost of each node
/// (the "unreached" marker where none is known) and the node it was reached
/// from.
pub struct Dijkstra<'a> {
    graph: &'a Graph,
    cost: Vec<u32>,
    pred: Vec<NodeIdx>,
    /// The edge each reached node was last reached through.
    via: Ghost<Seq<int>>,
    /// When each node's cost was last lowered; a predecessor always ranks
    /// below the nodes it leads to.
    rank: Ghost<Seq<nat>>,
    /// The node the search started from.
    origin: Ghost<int>,
    /// The edge costs the search ran with.
    edge_costs: Ghost<Seq<u32>>,
}

impl<'a> Dijkstra<'a> {
    pub closed spec fn graph(&self) -> &'a Graph {
        self.graph
    }

    pub closed spec fn costs(&self) -> Seq<u32> {
        self.cost@
    }

    pub closed spec fn preds(&self) -> Seq<NodeIdx> {
        self.pred@
    }

    /// The edge through which node `v` got its cost.
    pub closed spec fn origin(&self) -> int {
        self.origin@
    }

    pub closed spec fn edge_costs(&self) -> Seq<u32> {
        self.edge_costs@
    }

    /// A finished search: its costs and predecessors are sound for the
    /// start and edge costs it ran with.
    pub open spec fn searched(&self) -> bool {
        &&& self.ranked()
        &&& self.graph().wf()
        &&& 0 <= self.origin() < self.graph().node_count()
        &&& self.sound(self.edge_costs(), self.origin())
    }

    pub closed spec fn via(&self, v: int) -> int {
        self.via@[v]
    }

    /// Following predecessors from any node strictly lowers the rank, so it
    /// ends at a node without predecessor.
    pub closed spec fn ranked(&self) -> bool {
        &&& self.rank@.len() == self.pred@.len()
        &&& forall|v: int|
            0 <= v < self.pred@.len() && !(#[trigger] self.pred@[v]).is_none_spec() ==> {
                &&& self.pred@[v].0 < self.pred@.len()
                &&& self.rank@[self.pred@[v].0 as int] < self.rank@[v]
            }
    }

    /// Nothing has been reached yet.
    pub open spec fn fresh(&self) -> bool {
        &&& self.costs().len() == self.graph().node_count()
        &&& self.preds().len() == self.graph().node_count()
        &&& forall|v: int| 0 <= v < self.costs().len() ==> #[trigger] self.costs()[v] == U32_MAX
        &&& forall|v: int| 0 <= v < self.preds().len() ==> #[trigger] self.preds()[v].0 == U32_MAX
    }

    /// Each reached node other than `start` got its cost from its
    /// predecessor through an edge: the predecessor's cost plus that edge's
    /// cost is the node's cost. Unreached nodes have no predecessor.
    pub open spec fn sound(&self, ec: Seq<u32>, start: int) -> bool {
        let g = self.graph();
        let cost = self.costs();
        let pred = self.preds();
        &&& cost.len() == g.node_count()
        &&& pred.len() == g.node_count()
        &&& cost[start] == 0
        &&& pred[start].0 == U32_MAX
        &&& forall|v: int|
            0 <= v < g.node_count() && v != start && #[trigger] cost[v] != U32_MAX ==> {
                let u = pred[v].0 as int;
                let e = self.via(v);
                &&& 0 <= u < g.node_count()
                &&& cost[u] != U32_MAX
                &&& g.owns(u, e)
                &&& g.edges@[e].0 == v
                &&& cost[u] + ec[e] == cost[v]
            }
        &&& forall|v: int| 0 <= v < g.node_count() && #[trigger] cost[v] == U32_MAX ==> pred[v].0 == U32_MAX
    }

    pub fn new(graph: &'a Graph) -> (r: Dijkstra<'a>)
        ensures
            r.graph() == graph,
            r.fresh(),
            r.ranked(),
    {
        let n = graph.nodes.len();
        let cost = vec![U32_MAX; n];
        let pred = vec![NodeIdx::none(); n];
        Dijkstra {
            graph,
            cost,
            pred,
            via: Ghost(Seq::new(n as nat, |i: int| 0)),
            rank: Ghost(Seq::new(n as nat, |i: int| 0)),
            origin: Ghost(0),
            edge_costs: Ghost(Seq::empty()),
        }
    }

    /// Runs the search from `start`; `edge_cost[e]` is the cost of following
    /// edge `e`. With a goal, the search stops as soon as the goal leaves the
    /// queue; without one, it explores everything reachable. Queue entries
    /// whose cost is above the node's current cost are outdated and skipped.
    pub fn run(&mut self, start: NodeIdx, goal: Option<NodeIdx>, edge_cost: &[u32])
        requires
            old(self).fresh(),
            old(self).graph().wf(),
            start.0 < old(self).graph().node_count(),
            edge_cost@.len() == old(self).graph().edge_count(),
        ensures
            final(self).graph() == old(self).graph(),
            final(self).sound(edge_cost@, start.0 as int),
            final(self).ranked(),
            final(self).origin() == start.0,
            final(self).edge_costs() == edge_cost@,
            final(self).searched(),
            goal == Some(start) ==> forall|v: int|
                0 <= v < final(self).graph().node_count() && v != start.0 ==> #[trigger] final(self).costs()[v]
                    == U32_MAX,
            goal is None ==> forall|v: int|
                0 <= v < final(self).graph().node_count() ==> #[trigger] optimal(
                    final(self).graph(),
                    edge_cost@,
                    start.0 as int,
                    v,
                    final(self).costs()[v],
                ),
            goal is Some && goal.unwrap().0 < final(self).graph().node_count() ==> optimal(
                final(self).graph(),
                edge_cost@,
                start.0 as int,
                goal.unwrap().0 as int,
                final(self).costs()[goal.unwrap().0 as int],
            ),
    {
        let ghost g = self.graph;
        let ghost ec = edge_cost@;
        let ghost s = start.0 as int;
        let n = self.cost.len();
        let ghost mut settled: Seq<bool> = Seq::new(n as nat, |i: int| false);
        let ghost mut floor: int = 0;
        let ghost mut clock: nat = 1;
        proof {
            self.via@ = Seq::new(n as nat, |i: int| 0);
            self.rank@ = Seq::new(n as nat, |i: int| 0);
        }
        self.cost[start.usize()] = 0;
        let mut queue = MinQueue::new();
        queue.push(Entry::new(0, start));
        proof {
            lemma_sum_nonneg(self.cost@);
            assert forall|u: int|
                0 <= u < g.node_count() && #[trigger] self.cost@[u] != U32_MAX implies queue@.contains(
                Entry { cost: self.cost@[u], idx: NodeIdx(u as u32) },
            ) || relaxed(g, ec, self.cost@, u) by {
                assert(u == s);
            }
        }
        loop
            invariant_except_break
                self.graph == g,
                goal == Some(start) ==> (forall|v: int| 0 <= v < n && v != s ==> #[trigger] self.cost@[v] == U32_MAX)
                    && (forall|x: Entry| #[trigger] queue@.contains(x) ==> x.idx == start),
                g.wf(),
                n == g.node_count(),
                self.cost@.len() == n,
                self.pred@.len() == n,
                self.via@.len() == n,
                ec == edge_cost@,
                ec.len() == g.edge_count(),
                0 <= s < n,
                s == start.0,
                self.sound(ec, s),
                queue.wf(),
                forall|x: Entry|
                    #[trigger] queue@.contains(x) ==> x.idx.0 < n && x.cost >= self.cost@[x.idx.0 as int],
                queued_or_relaxed(g, ec, self.cost@, queue@),
                self.rank@.len() == n,
                settled.len() == n,
                floor >= 0,
                forall|x: Entry| #[trigger] queue@.contains(x) ==> x.cost >= floor && x.cost < U32_MAX,
                forall|v: int|
                    0 <= v < n && #[trigger] settled[v] ==> self.cost@[v] != U32_MAX && self.cost@[v] <= floor,
                forall|v: int|
                    0 <= v < n && !(#[trigger] self.pred@[v]).is_none_spec() ==> {
                        &&& self.pred@[v].0 < n
                        &&& settled[self.pred@[v].0 as int]
                        &&& self.rank@[self.pred@[v].0 as int] < self.rank@[v]
                    },
                forall|v: int| 0 <= v < n ==> #[trigger] self.rank@[v] < clock,
            ensures
                self.graph == g,
                goal == Some(start) ==> forall|v: int| 0 <= v < n && v != s ==> #[trigger] self.cost@[v] == U32_MAX,
                self.sound(ec, s),
                self.ranked(),
                goal is None ==> forall|v: int|
                    0 <= v < n ==> #[trigger] optimal(g, ec, s, v, self.cost@[v]),
                goal is Some && goal.unwrap().0 < n ==> optimal(
                    g,
                    ec,
                    s,
                    goal.unwrap().0 as int,
                    self.cost@[goal.unwrap().0 as int],
                ),
            decreases queue@.len() + 2 * sum(self.cost@),
        {
            if queue.len() == 0 {
                proof {
                    assert forall|v: int| 0 <= v < n implies #[trigger] optimal(g, ec, s, v, self.cost@[v]) by {
                        assert forall|ns: Seq<int>, es: Seq<int>|
                            #[trigger] is_walk(g, ns, es) && ns[0] == s && ns.last() == v && walk_cost(ec, es)
                                < U32_MAX implies self.cost@[v] <= walk_cost(ec, es) by {
                            lemma_walk_bound(g, ec, self.cost@, queue@, s, ns, es);
                        }
                    }
                }
                break;
            }
            let ghost q_old = queue@;
            let ghost m_old = queue@.len() + 2 * sum(self.cost@);
            let entry = queue.pop();
            let u = entry.idx;
            let c = entry.cost;
            if let Some(target) = goal {
                if target == u {
                    proof {
                        assert forall|ns: Seq<int>, es: Seq<int>|
                            #[trigger] is_walk(g, ns, es) && ns[0] == s && ns.last() == u.0 && walk_cost(ec, es)
                                < U32_MAX implies self.cost@[u.0 as int] <= walk_cost(ec, es) by {
                            lemma_walk_bound(g, ec, self.cost@, q_old, s, ns, es);
                            if exists|x: Entry| #[trigger] q_old.contains(x) && x.cost <= walk_cost(ec, es) {
                                let x = choose|x: Entry| #[trigger] q_old.contains(x) && x.cost <= walk_cost(ec, es);
                                assert(entry_le(entry, x));
                            }
                        }
                    }
                    break;
                }
            }
            assert(!(goal == Some(start))) by {
                if goal == Some(start) {
                    assert(q_old.contains(entry));
                }
            }
            proof {
                lemma_pop_keeps(g, ec, self.cost@, q_old, queue@, entry);
            }
            if c > self.cost[u.usize()] {
                proof {
                    lemma_sum_nonneg(self.cost@);
                }
                continue;
            }
            proof {
                assert(q_old.contains(entry));
                floor = c as int;
                settled = settled.update(u.0 as int, true);
            }
            let range = self.graph.edge_range(u);
            let mut e = range.start;
            while e < range.end
                invariant
                    self.graph == g,
                    !(goal == Some(start)),
                    g.wf(),
                    n == g.node_count(),
                    self.cost@.len() == n,
                    self.pred@.len() == n,
                    self.via@.len() == n,
                    ec == edge_cost@,
                    ec.len() == g.edge_count(),
                    0 <= s < n,
                    s == start.0,
                    self.sound(ec, s),
                    u.0 < n,
                    c == self.cost@[u.0 as int],
                    range.start == g.start(u.0 as int),
                    range.end == g.start(u.0 + 1),
                    range.start <= e <= range.end,
                    range.end <= g.edge_count(),
                    queue.wf(),
                    forall|x: Entry|
                        #[trigger] queue@.contains(x) ==> x.idx.0 < n && x.cost >= self.cost@[x.idx.0 as int],
                    queued_or_relaxed_except(g, ec, self.cost@, queue@, u.0 as int),
                    forall|x: int|
                        range.start <= x < e && c + ec[x] < U32_MAX ==> #[trigger] self.cost@[g.edges@[x].0 as int]
                            <= c + ec[x],
                    queue@.len() + 2 * sum(self.cost@) < m_old,
                    floor == c,
                    settled[u.0 as int],
                    self.rank@.len() == n,
                    settled.len() == n,
                    floor >= 0,
                    forall|x: Entry| #[trigger] queue@.contains(x) ==> x.cost >= floor && x.cost < U32_MAX,
                    forall|v: int|
                        0 <= v < n && #[trigger] settled[v] ==> self.cost@[v] != U32_MAX && self.cost@[v] <= floor,
                    forall|v: int|
                        0 <= v < n && !(#[trigger] self.pred@[v]).is_none_spec() ==> {
                            &&& self.pred@[v].0 < n
                            &&& settled[self.pred@[v].0 as int]
                            &&& self.rank@[self.pred@[v].0 as int] < self.rank@[v]
                        },
                    forall|v: int| 0 <= v < n ==> #[trigger] self.rank@[v] < clock,
                decreases range.end - e,
            {
                let v = self.graph.edges[e];
                let w = edge_cost[e];
                if (c as u64) + (w as u64) < U32_MAX as u64 {
                    let next = c + w;
                    if next < self.cost[v.usize()] {
                        let ghost old_cost = self.cost@;
                        let ghost old_queue = queue@;
                        proof {
                            lemma_sum_update(old_cost, v.0 as int, next);
                        }
                        self.cost[v.usize()] = next;
                        self.pred[v.usize()] = u;
                        proof {
                            self.via@ = self.via@.update(v.0 as int, e as int);
                            self.rank@ = self.rank@.update(v.0 as int, clock);
                            clock = clock + 1;
                        }
                        queue.push(Entry::new(next, v));
                        proof {
                            lemma_push_keeps(g, ec, old_cost, old_queue, queue@, u.0 as int, v.0 as int, next);
                        }
                    }
                }
                e = e + 1;
            }
            proof {
                assert(relaxed(g, ec, self.cost@, u.0 as int));
                lemma_sum_nonneg(self.cost@);
            }
        }
        proof {
            self.origin@ = s;
            self.edge_costs@ = ec;
        }
    }

    /// The path to `goal`: its predecessors followed back to a node without
    /// one, in forward order. For a reached goal that node is the start.
    pub fn path(&self, goal: NodeIdx) -> (r: Vec<NodeIdx>)
        requires
            self.searched(),
            goal.0 < self.preds().len(),
            self.costs()[goal.0 as int] != U32_MAX,
        ensures
            r@.len() >= 1,
            r@[0].0 == self.origin(),
            r@.last() == goal,
            crate::search::linked(self.graph(), r@),
            self.preds()[r@[0].0 as int].is_none_spec(),
            forall|k: int| 0 <= k < r@.len() ==> (#[trigger] r@[k]).0 < self.preds().len(),
            forall|k: int| 0 < k < r@.len() ==> self.preds()[(#[trigger] r@[k]).0 as int] == r@[k - 1],
    {
        let n = self.pred.len();
        let mut back: Vec<NodeIdx> = Vec::new();
        let mut at = goal;
        loop
            invariant_except_break
                self.ranked(),
                n == self.pred@.len(),
                at.0 < n,
                back@.len() > 0 ==> self.pred@[back@.last().0 as int] == at,
                forall|k: int| 0 <= k < back@.len() ==> (#[trigger] back@[k]).0 < n,
                forall|k: int| 0 <= k < back@.len() - 1 ==> self.pred@[(#[trigger] back@[k]).0 as int] == back@[k + 1],
                back@.len() > 0 ==> back@[0] == goal,
                back@.len() == 0 ==> at == goal,
            ensures
                back@.len() >= 1,
                back@[0] == goal,
                self.pred@[back@.last().0 as int].is_none_spec(),
                forall|k: int| 0 <= k < back@.len() ==> (#[trigger] back@[k]).0 < n,
                forall|k: int| 0 <= k < back@.len() - 1 ==> self.pred@[(#[trigger] back@[k]).0 as int] == back@[k + 1],
            decreases self.rank@[at.0 as int],
        {
            back.push(at);
            let p = self.pred[at.usize()];
            if p.is_none() {
                break;
            }
            at = p;
        }
        let mut r: Vec<NodeIdx> = Vec::with_capacity(back.len());
        let mut k: usize = back.len();
        while k > 0
            invariant
                0 <= k <= back@.len(),
                r@.len() == back@.len() - k,
                forall|j: int| 0 <= j < r@.len() ==> #[trigger] r@[j] == back@[back@.len() - 1 - j],
            decreases k,
        {
            k = k - 1;
            r.push(back[k]);
        }
        assert forall|j: int| 0 < j < r@.len() implies self.preds()[(#[trigger] r@[j]).0 as int] == r@[j - 1] by {
            assert(r@[j] == back@[back@.len() - 1 - j]);
            assert(r@[j - 1] == back@[back@.len() - 1 - (j - 1)]);
        }
        assert(r@[r@.len() - 1] == back@[0]);
        proof {
            crate::search::lemma_path_from_start(self, self.edge_costs(), self.origin(), r@);
        }
        r
    }

    /// A reached node with the largest cost; among equals, the smallest
    /// index. `None` when no node is reached.
    pub fn farthest(&self) -> (r: Option<NodeIdx>)
        requires
            self.costs().len() < U32_MAX,
        ensures
            r is None <==> forall|v: int| 0 <= v < self.costs().len() ==> #[trigger] self.costs()[v] == U32_MAX,
            r is Some ==> is_farthest(self.costs(), r.unwrap().0 as int),
    {
        let n = self.cost.len();
        let mut best: Option<NodeIdx> = None;
        let mut v: usize = 0;
        while v < n
            invariant
                n == self.cost@.len(),
                n < U32_MAX,
                0 <= v <= n,
                best is None <==> forall|w: int| 0 <= w < v ==> #[trigger] self.cost@[w] == U32_MAX,
                best is Some ==> {
                    let b = best.unwrap().0 as int;
                    &&& 0 <= b < v
                    &&& self.cost@[b] != U32_MAX
                    &&& forall|w: int|
                        0 <= w < v && #[trigger] self.cost@[w] != U32_MAX ==> self.cost@[w] < self.cost@[b] || (
                        self.cost@[w] == self.cost@[b] && b <= w)
                },
            decreases n - v,
        {
            let c = self.cost[v];
            if c != U32_MAX {
                match best {
                    None => {
                        best = Some(NodeIdx::new(v));
                    },
                    Some(b) => {
                        if c > self.cost[b.usize()] {
                            best = Some(NodeIdx::new(v));
                        }
                    },
                }
            }
            v = v + 1;
        }
        best
    }

    /// Best known cost of `node`; the "unreached" marker if none.
    pub fn cost(&self, node: NodeIdx) -> (r: u32)
        requires
            node.0 < self.costs().len(),
        ensures
            r == self.costs()[node.0 as int],
    {
        self.cost[node.usize()]
    }

    /// The node `node` was reached from; the "no node" marker if none.
    pub fn pred(&self, node: NodeIdx) -> (r: NodeIdx)
        requires
            node.0 < self.preds().len(),
        ensures
            r == self.preds()[node.0 as int],
    {
        self.pred[node.usize()]
    }
}

/// `v` is reached, no reached node costs more, and no reached node of the
/// same cost has a smaller index.
pub open spec fn is_farthest(cost: Seq<u32>, v: int) -> bool {
    &&& 0 <= v < cost.len()
    &&& cost[v] != U32_MAX
    &&& forall|w: int|
        0 <= w < cost.len() && #[trigger] cost[w] != U32_MAX ==> cost[w] < cost[v] || (cost[w] == cost[v] && v <= w)
}

/// The longest of the shortest paths found by a search from `from`: the
/// path to the farthest reached node.
pub fn find_longest_shortest_path(dijkstra: &Dijkstra, from: NodeIdx) -> (r: Option<Vec<NodeIdx>>)
    requires
        dijkstra.searched(),
        dijkstra.origin() == from.0,
    ensures
        r is Some,
        r is Some ==> {
            let p = r.unwrap()@;
            &&& p.len() >= 1
            &&& p[0] == from
            &&& is_farthest(dijkstra.costs(), p.last().0 as int)
            &&& forall|k: int| 0 < k < p.len() ==> dijkstra.preds()[(#[trigger] p[k]).0 as int] == p[k - 1]
        },
{
    let to = match dijkstra.farthest() {
        Some(t) => t,
        None => {
            assert(dijkstra.costs()[from.0 as int] == U32_MAX);
            return None;
        },
    };
    let steps = dijkstra.path(to);
    Some(steps)
}


} // verus!
