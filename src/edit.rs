//! Transforms from one graph store to another: edge filtering, redirect
//! resolution and edge inversion.

use vstd::prelude::*;

use crate::data::{flag_set, Data, DataView, Link, FLAG_IN_PARENS, FLAG_IN_STRUCTURE};
use crate::graph::{csr_start, EdgeIdx, Graph, NodeIdx, U32_MAX};
use crate::util::{lemma_chain_in_range, resolved};

verus! {

/// Each edge as its target together with its link.
pub open spec fn pairs(edges: Seq<NodeIdx>, links: Seq<Link>) -> Seq<(NodeIdx, Link)> {
    Seq::new(edges.len(), |e: int| (edges[e], links[e]))
}

/// The edges of node `i`, in order, each as its target with its link.
pub open spec fn adj(d: DataView, i: int) -> Seq<(NodeIdx, Link)> {
    pairs(d.edges, d.links).subrange(d.start(i), d.start(i + 1))
}

/// The elements that `f` keeps, mapped by `f`, in order.
pub open spec fn keep_map<A, B>(s: Seq<A>, f: spec_fn(A) -> Option<B>) -> Seq<B>
    decreases s.len(),
{
    if s.len() == 0 {
        seq![]
    } else {
        let r = keep_map(s.drop_last(), f);
        match f(s.last()) {
            Some(b) => r.push(b),
            None => r,
        }
    }
}

pub proof fn lemma_keep_map_step<A, B>(s: Seq<A>, k: int, f: spec_fn(A) -> Option<B>)
    requires
        0 <= k < s.len(),
    ensures
        keep_map(s.subrange(0, k + 1), f) == match f(s[k]) {
            Some(b) => keep_map(s.subrange(0, k), f).push(b),
            None => keep_map(s.subrange(0, k), f),
        },
{
    assert(s.subrange(0, k + 1).drop_last() =~= s.subrange(0, k));
}

pub proof fn lemma_keep_map_len<A, B>(s: Seq<A>, f: spec_fn(A) -> Option<B>)
    ensures
        keep_map(s, f).len() <= s.len(),
    decreases s.len(),
{
    if s.len() > 0 {
        lemma_keep_map_len(s.drop_last(), f);
    }
}

/// A link passes the filter when each given flag has the given value.
pub open spec fn link_selected(l: Link, in_parens: Option<bool>, in_structure: Option<bool>) -> bool {
    &&& (in_parens is Some ==> in_parens.unwrap() == flag_set(l.flags, FLAG_IN_PARENS))
    &&& (in_structure is Some ==> in_structure.unwrap() == flag_set(l.flags, FLAG_IN_STRUCTURE))
}

pub open spec fn selector(in_parens: Option<bool>, in_structure: Option<bool>) -> spec_fn(
    (NodeIdx, Link),
) -> Option<(NodeIdx, Link)> {
    |x: (NodeIdx, Link)|
        if link_selected(x.1, in_parens, in_structure) {
            Some(x)
        } else {
            None
        }
}

/// The graph under construction: `nodes` and `edges` with their links hold
/// nodes `0 .. nodes.len()` of a store whose node count is `n`; every node's
/// edge run is `adj_of` of it.
pub open spec fn building(nodes: Seq<EdgeIdx>, edges: Seq<NodeIdx>, links: Seq<Link>, n: int) -> bool {
    &&& edges.len() == links.len()
    &&& (nodes.len() > 0 ==> nodes[0].0 == 0)
    &&& (nodes.len() == 0 ==> edges.len() == 0)
    &&& forall|i: int, j: int| 0 <= i <= j < nodes.len() ==> #[trigger] nodes[i].0 <= #[trigger] nodes[j].0
    &&& forall|i: int| 0 <= i < nodes.len() ==> #[trigger] nodes[i].0 <= edges.len()
    &&& forall|e: int| 0 <= e < edges.len() ==> #[trigger] edges[e].0 < n
}

pub open spec fn adj_of(nodes: Seq<EdgeIdx>, edges: Seq<NodeIdx>, links: Seq<Link>, i: int) -> Seq<
    (NodeIdx, Link),
> {
    pairs(edges, links).subrange(
        csr_start(nodes, edges.len() as int, i),
        csr_start(nodes, edges.len() as int, i + 1),
    )
}

/// Appending an edge to the last node leaves the runs of the nodes before it
/// unchanged and extends the last run.
pub proof fn lemma_push_edge(nodes: Seq<EdgeIdx>, edges: Seq<NodeIdx>, links: Seq<Link>, t: NodeIdx, l: Link)
    requires
        edges.len() == links.len(),
        nodes.len() > 0,
        forall|i: int| 0 <= i < nodes.len() ==> #[trigger] nodes[i].0 <= edges.len(),
        forall|i: int, j: int| 0 <= i <= j < nodes.len() ==> #[trigger] nodes[i].0 <= #[trigger] nodes[j].0,
    ensures
        forall|j: int|
            0 <= j < nodes.len() - 1 ==> #[trigger] adj_of(nodes, edges.push(t), links.push(l), j)
                == adj_of(nodes, edges, links, j),
        adj_of(nodes, edges.push(t), links.push(l), nodes.len() - 1) == adj_of(
            nodes,
            edges,
            links,
            nodes.len() - 1,
        ).push((t, l)),
{
    let p = pairs(edges, links);
    let q = pairs(edges.push(t), links.push(l));
    assert(q =~= p.push((t, l)));
    assert forall|j: int| 0 <= j < nodes.len() - 1 implies #[trigger] adj_of(
        nodes,
        edges.push(t),
        links.push(l),
        j,
    ) == adj_of(nodes, edges, links, j) by {
        assert(nodes[j].0 <= nodes[j + 1].0);
        assert(adj_of(nodes, edges.push(t), links.push(l), j) =~= adj_of(nodes, edges, links, j));
    }
    let k = nodes.len() - 1;
    assert(adj_of(nodes, edges.push(t), links.push(l), k) =~= adj_of(nodes, edges, links, k).push(
        (t, l),
    ));
}

/// Starting a node leaves the runs of the nodes before it unchanged; the new
/// node's run is empty.
pub proof fn lemma_push_node(nodes: Seq<EdgeIdx>, edges: Seq<NodeIdx>, links: Seq<Link>)
    requires
        edges.len() == links.len(),
        edges.len() <= U32_MAX,
        forall|i: int| 0 <= i < nodes.len() ==> #[trigger] nodes[i].0 <= edges.len(),
    ensures
        forall|j: int|
            0 <= j < nodes.len() ==> #[trigger] adj_of(nodes.push(EdgeIdx(edges.len() as u32)), edges, links, j)
                == adj_of(nodes, edges, links, j),
        adj_of(nodes.push(EdgeIdx(edges.len() as u32)), edges, links, nodes.len() as int) == Seq::<
            (NodeIdx, Link),
        >::empty(),
{
    let ns = nodes.push(EdgeIdx(edges.len() as u32));
    assert forall|j: int| 0 <= j < nodes.len() implies #[trigger] adj_of(ns, edges, links, j) == adj_of(
        nodes,
        edges,
        links,
        j,
    ) by {
        assert(adj_of(ns, edges, links, j) =~= adj_of(nodes, edges, links, j));
    }
    assert(adj_of(ns, edges, links, nodes.len() as int) =~= Seq::<(NodeIdx, Link)>::empty());
}

/// Keeps only the links whose flags match the given values; `None` accepts
/// either value. Pages and nodes stay as they are.
pub fn retain_edges(data: &mut Data, in_parens: Option<bool>, in_structure: Option<bool>)
    requires
        old(data).wf(),
    ensures
        final(data).wf(),
        old(data)@.redirects_ok() ==> final(data)@.redirects_ok(),
        final(data)@.pages == old(data)@.pages,
        final(data)@.nodes.len() == old(data)@.nodes.len(),
        forall|i: int|
            0 <= i < old(data)@.nodes.len() ==> #[trigger] adj(final(data)@, i) == keep_map(
                adj(old(data)@, i),
                selector(in_parens, in_structure),
            ),
{
    let ghost d = data@;
    let ghost f = selector(in_parens, in_structure);
    let n = data.graph.nodes.len();
    let mut graph = Graph::with_capacity(n, data.links.len());
    let mut links: Vec<Link> = Vec::with_capacity(data.links.len());
    let mut i: usize = 0;
    while i < n
        invariant
            d == data@,
            f == selector(in_parens, in_structure),
            d.well_formed(),
            n == d.nodes.len(),
            0 <= i <= n,
            graph.nodes@.len() == i,
            graph.edges@.len() <= d.start(i as int),
            building(graph.nodes@, graph.edges@, links@, n as int),
            forall|j: int|
                0 <= j < i ==> #[trigger] adj_of(graph.nodes@, graph.edges@, links@, j) == keep_map(
                    adj(d, j),
                    f,
                ),
        decreases n - i,
    {
        proof {
            lemma_push_node(graph.nodes@, graph.edges@, links@);
        }
        graph.add_node();
        let range = data.graph.edge_range(NodeIdx::new(i));
        let mut e = range.start;
        while e < range.end
            invariant
                d == data@,
                f == selector(in_parens, in_structure),
                d.well_formed(),
                n == d.nodes.len(),
                0 <= i < n,
                range.start == d.start(i as int),
                range.end == d.start(i + 1),
                range.start <= e <= range.end,
                graph.nodes@.len() == i + 1,
                graph.edges@.len() <= e,
                building(graph.nodes@, graph.edges@, links@, n as int),
                forall|j: int|
                    0 <= j < i ==> #[trigger] adj_of(graph.nodes@, graph.edges@, links@, j) == keep_map(
                        adj(d, j),
                        f,
                    ),
                adj_of(graph.nodes@, graph.edges@, links@, i as int) == keep_map(
                    adj(d, i as int).subrange(0, e - range.start),
                    f,
                ),
            decreases range.end - e,
        {
            let link = data.links[e];
            let target = data.graph.edges[e];
            proof {
                let a = adj(d, i as int);
                let k = e - range.start;
                assert(a[k] == (target, link));
                lemma_keep_map_step(a, k, f);
            }
            let keep = (in_parens.is_none() || in_parens.unwrap() == link.in_parens()) && (
            in_structure.is_none() || in_structure.unwrap() == link.in_structure());
            if keep {
                proof {
                    lemma_push_edge(graph.nodes@, graph.edges@, links@, target, link);
                }
                graph.add_edge(target);
                links.push(link);
            }
            e = e + 1;
        }
        proof {
            assert(adj(d, i as int).subrange(0, range.end - range.start) =~= adj(d, i as int));
        }
        i = i + 1;
    }
    proof {
        assert forall|j: int| 0 <= j < n implies adj_of(graph.nodes@, graph.edges@, links@, j).len()
            <= d.degree(j) by {
            lemma_keep_map_len(adj(d, j), f);
        }
    }
    data.links = links;
    data.graph = graph;
    assert(forall|j: int| 0 <= j < n ==> #[trigger] adj(data@, j) == adj_of(graph.nodes@, graph.edges@, links@, j));
}

/// The article an edge into `t` leads to once redirects are followed: where
/// the chain from `t` ends, if that page is not a redirect. `None` when the
/// chain runs into a cycle or ends at a redirect without a target.
pub open spec fn article_of(d: DataView, t: int) -> Option<NodeIdx> {
    match resolved(d, t) {
        Some(x) => if !d.pages[x].redirect {
            Some(NodeIdx(x as u32))
        } else {
            None
        },
        None => None,
    }
}

pub open spec fn rewirer(d: DataView) -> spec_fn((NodeIdx, Link)) -> Option<(NodeIdx, Link)> {
    |x: (NodeIdx, Link)|
        match article_of(d, x.0.0 as int) {
            Some(t) => Some((t, x.1)),
            None => None,
        }
}

/// For every node, the article it resolves to, or the "no node" marker.
fn article_targets(data: &Data) -> (r: Vec<NodeIdx>)
    requires
        data.wf(),
    ensures
        r@.len() == data@.pages.len(),
        forall|v: int|
            0 <= v < r@.len() ==> #[trigger] r@[v] == match article_of(data@, v) {
                Some(t) => t,
                None => NodeIdx(U32_MAX),
            },
        forall|v: int| 0 <= v < r@.len() && #[trigger] article_of(data@, v) is Some ==> article_of(data@, v).unwrap().0 < data@.pages.len(),
{
    let n = data.pages.len();
    let mut r: Vec<NodeIdx> = Vec::with_capacity(n);
    let mut v: usize = 0;
    while v < n
        invariant
            data.wf(),
            n == data@.pages.len(),
            0 <= v <= n,
            r@.len() == v,
            forall|w: int|
                0 <= w < v ==> #[trigger] r@[w] == match article_of(data@, w) {
                    Some(t) => t,
                    None => NodeIdx(U32_MAX),
                },
            forall|w: int| 0 <= w < v && #[trigger] article_of(data@, w) is Some ==> article_of(data@, w).unwrap().0 < n,
        decreases n - v,
    {
        proof {
            lemma_chain_in_range(data@, v as int, n as nat);
        }
        let t = match crate::util::resolve_redirects(data, NodeIdx::new(v)) {
            Some(x) => {
                assert(data@.pages[x.0 as int] == data.pages@[x.0 as int]@);
                if !data.pages[x.usize()].redirect {
                    x
                } else {
                    NodeIdx::none()
                }
            },
            None => NodeIdx::none(),
        };
        r.push(t);
        v = v + 1;
    }
    r
}

/// Points every edge at the article its target resolves to and drops edges
/// whose redirect chain is cyclic or ends at a redirect without a target.
/// Pages and nodes stay as they are.
pub fn resolve_redirects(data: &mut Data)
    requires
        old(data).wf(),
    ensures
        final(data).wf(),
        old(data)@.redirects_ok() ==> final(data)@.redirects_ok(),
        final(data)@.pages == old(data)@.pages,
        final(data)@.nodes.len() == old(data)@.nodes.len(),
        forall|i: int|
            0 <= i < old(data)@.nodes.len() ==> #[trigger] adj(final(data)@, i) == keep_map(
                adj(old(data)@, i),
                rewirer(old(data)@),
            ),
        forall|e: int|
            0 <= e < final(data)@.edges.len() ==> !final(data)@.pages[#[trigger] final(data)@.edges[e].0 as int].redirect,
{
    let ghost d = data@;
    let ghost f = rewirer(d);
    let articles = article_targets(data);
    let n = data.graph.nodes.len();
    let mut graph = Graph::with_capacity(n, data.links.len());
    let mut links: Vec<Link> = Vec::with_capacity(data.links.len());
    let mut i: usize = 0;
    while i < n
        invariant
            d == data@,
            f == rewirer(d),
            d.well_formed(),
            n == d.nodes.len(),
            articles@.len() == n,
            forall|v: int|
                0 <= v < n ==> #[trigger] articles@[v] == match article_of(d, v) {
                    Some(t) => t,
                    None => NodeIdx(U32_MAX),
                },
            forall|v: int| 0 <= v < n && #[trigger] article_of(d, v) is Some ==> article_of(d, v).unwrap().0 < n,
            0 <= i <= n,
            graph.nodes@.len() == i,
            graph.edges@.len() <= d.start(i as int),
            building(graph.nodes@, graph.edges@, links@, n as int),
            forall|e: int| 0 <= e < graph.edges@.len() ==> !d.pages[#[trigger] graph.edges@[e].0 as int].redirect,
            forall|j: int|
                0 <= j < i ==> #[trigger] adj_of(graph.nodes@, graph.edges@, links@, j) == keep_map(
                    adj(d, j),
                    f,
                ),
        decreases n - i,
    {
        proof {
            lemma_push_node(graph.nodes@, graph.edges@, links@);
        }
        graph.add_node();
        let range = data.graph.edge_range(NodeIdx::new(i));
        let mut e = range.start;
        while e < range.end
            invariant
                d == data@,
                f == rewirer(d),
                d.well_formed(),
                n == d.nodes.len(),
                articles@.len() == n,
                forall|v: int|
                    0 <= v < n ==> #[trigger] articles@[v] == match article_of(d, v) {
                        Some(t) => t,
                        None => NodeIdx(U32_MAX),
                    },
                forall|v: int| 0 <= v < n && #[trigger] article_of(d, v) is Some ==> article_of(d, v).unwrap().0 < n,
                0 <= i < n,
                range.start == d.start(i as int),
                range.end == d.start(i + 1),
                range.start <= e <= range.end,
                graph.nodes@.len() == i + 1,
                graph.edges@.len() <= e,
                building(graph.nodes@, graph.edges@, links@, n as int),
                forall|x: int| 0 <= x < graph.edges@.len() ==> !d.pages[#[trigger] graph.edges@[x].0 as int].redirect,
                forall|j: int|
                    0 <= j < i ==> #[trigger] adj_of(graph.nodes@, graph.edges@, links@, j) == keep_map(
                        adj(d, j),
                        f,
                    ),
                adj_of(graph.nodes@, graph.edges@, links@, i as int) == keep_map(
                    adj(d, i as int).subrange(0, e - range.start),
                    f,
                ),
            decreases range.end - e,
        {
            let link = data.links[e];
            let old_target = data.graph.edges[e];
            let target = articles[old_target.usize()];
            proof {
                let a = adj(d, i as int);
                let k = e - range.start;
                assert(a[k] == (old_target, link));
                lemma_keep_map_step(a, k, f);
            }
            if !target.is_none() {
                proof {
                    lemma_push_edge(graph.nodes@, graph.edges@, links@, target, link);
                    lemma_chain_in_range(d, old_target.0 as int, n as nat);
                    assert(!d.pages[target.0 as int].redirect);
                }
                assert(f((old_target, link)) == Some((target, link)));
                graph.add_edge(target);
                links.push(link);
            } else {
                assert(f((old_target, link)) is None);
            }
            e = e + 1;
        }
        proof {
            assert(adj(d, i as int).subrange(0, range.end - range.start) =~= adj(d, i as int));
        }
        i = i + 1;
    }
    proof {
        assert forall|j: int| 0 <= j < n implies adj_of(graph.nodes@, graph.edges@, links@, j).len()
            <= d.degree(j) by {
            lemma_keep_map_len(adj(d, j), f);
        }
    }
    data.links = links;
    data.graph = graph;
    assert(forall|j: int| 0 <= j < n ==> #[trigger] adj(data@, j) == adj_of(graph.nodes@, graph.edges@, links@, j));
}

/// Node `i` owns edge `e`.
pub open spec fn owner(d: DataView, i: int, e: int) -> bool {
    0 <= i < d.nodes.len() && d.start(i) <= e < d.start(i + 1)
}

/// The node that edge `e` leaves.
pub open spec fn src_of(d: DataView, e: int) -> int {
    choose|i: int| owner(d, i, e)
}

pub proof fn lemma_src_of(d: DataView, i: int, e: int)
    requires
        d.well_formed(),
        owner(d, i, e),
    ensures
        src_of(d, e) == i,
{
    let j = src_of(d, e);
    assert(owner(d, j, e));
    if j < i {
        assert(d.start(j + 1) <= d.start(i));
    } else if i < j {
        assert(d.start(i + 1) <= d.start(j));
    }
}

/// Every edge as `(source, target, link)`, in edge order.
pub open spec fn triples(d: DataView) -> Seq<(NodeIdx, NodeIdx, Link)> {
    Seq::new(d.edges.len(), |e: int| (NodeIdx(src_of(d, e) as u32), d.edges[e], d.links[e]))
}

pub open spec fn into(v: int) -> spec_fn((NodeIdx, NodeIdx, Link)) -> Option<(NodeIdx, Link)> {
    |x: (NodeIdx, NodeIdx, Link)|
        if x.1.0 == v {
            Some((x.0, x.2))
        } else {
            None
        }
}

/// The edges into `v`, in edge order, each as its source with its link.
pub open spec fn incoming(d: DataView, v: int) -> Seq<(NodeIdx, Link)> {
    keep_map(triples(d), into(v))
}


/// Total length of the first `v` buckets.
pub open spec fn total(bs: Seq<Vec<(NodeIdx, Link)>>, v: int) -> int
    decreases v,
{
    if v <= 0 {
        0
    } else {
        total(bs, v - 1) + bs[v - 1]@.len()
    }
}

proof fn lemma_total_empty(bs: Seq<Vec<(NodeIdx, Link)>>, v: int)
    requires
        0 <= v <= bs.len(),
        forall|w: int| 0 <= w < bs.len() ==> (#[trigger] bs[w])@.len() == 0,
    ensures
        total(bs, v) == 0,
    decreases v,
{
    if v > 0 {
        lemma_total_empty(bs, v - 1);
    }
}

proof fn lemma_total_grow(bs: Seq<Vec<(NodeIdx, Link)>>, cs: Seq<Vec<(NodeIdx, Link)>>, t: int, v: int)
    requires
        bs.len() == cs.len(),
        0 <= t < bs.len(),
        0 <= v <= bs.len(),
        cs[t]@.len() == bs[t]@.len() + 1,
        forall|w: int| 0 <= w < bs.len() && w != t ==> (#[trigger] cs[w])@.len() == bs[w]@.len(),
    ensures
        total(cs, v) == total(bs, v) + if t < v { 1int } else { 0int },
    decreases v,
{
    if v > 0 {
        lemma_total_grow(bs, cs, t, v - 1);
    }
}

proof fn lemma_total_mono(bs: Seq<Vec<(NodeIdx, Link)>>, a: int, b: int)
    requires
        0 <= a <= b <= bs.len(),
    ensures
        total(bs, a) <= total(bs, b),
    decreases b - a,
{
    if a < b {
        lemma_total_mono(bs, a, b - 1);
    }
}

/// Reverses every edge: an edge `u -> v` with its link becomes `v -> u`.
/// The edges into a node keep the order of the edges they come from.
/// Pages and nodes stay as they are.
pub fn invert(data: &mut Data)
    requires
        old(data).wf(),
    ensures
        final(data).wf(),
        final(data)@.pages == old(data)@.pages,
        final(data)@.nodes.len() == old(data)@.nodes.len(),
        final(data)@.edges.len() == old(data)@.edges.len(),
        forall|v: int|
            0 <= v < old(data)@.nodes.len() ==> #[trigger] adj(final(data)@, v) == incoming(old(data)@, v),
{
    let ghost d = data@;
    let n = data.graph.nodes.len();
    let mut buckets: Vec<Vec<(NodeIdx, Link)>> = Vec::with_capacity(n);
    let mut v: usize = 0;
    while v < n
        invariant
            0 <= v <= n,
            buckets@.len() == v,
            forall|w: int| 0 <= w < v ==> (#[trigger] buckets@[w])@.len() == 0,
        decreases n - v,
    {
        buckets.push(Vec::new());
        v = v + 1;
    }
    proof {
        lemma_total_empty(buckets@, n as int);
        assert forall|w: int| 0 <= w < n implies (#[trigger] buckets@[w])@ == keep_map(
            triples(d).subrange(0, 0),
            into(w),
        ) by {
            assert(triples(d).subrange(0, 0).len() == 0);
            assert(buckets@[w]@ =~= seq![]);
        }
    }
    let mut i: usize = 0;
    while i < n
        invariant
            d == data@,
            d.well_formed(),
            n == d.nodes.len(),
            0 <= i <= n,
            buckets@.len() == n,
            forall|w: int|
                0 <= w < n ==> (#[trigger] buckets@[w])@ == keep_map(
                    triples(d).subrange(0, d.start(i as int)),
                    into(w),
                ),
            total(buckets@, n as int) == d.start(i as int),
            forall|w: int, j: int|
                0 <= w < n && 0 <= j < buckets@[w]@.len() ==> (#[trigger] buckets@[w]@[j]).0.0 < n,
        decreases n - i,
    {
        let range = data.graph.edge_range(NodeIdx::new(i));
        let mut e = range.start;
        while e < range.end
            invariant
                d == data@,
                d.well_formed(),
                n == d.nodes.len(),
                0 <= i < n,
                range.start == d.start(i as int),
                range.end == d.start(i + 1),
                range.start <= e <= range.end,
                buckets@.len() == n,
                forall|w: int|
                    0 <= w < n ==> (#[trigger] buckets@[w])@ == keep_map(
                        triples(d).subrange(0, e as int),
                        into(w),
                    ),
                total(buckets@, n as int) == e,
                forall|w: int, j: int|
                    0 <= w < n && 0 <= j < buckets@[w]@.len() ==> (#[trigger] buckets@[w]@[j]).0.0 < n,
            decreases range.end - e,
        {
            let target = data.graph.edges[e];
            let link = data.links[e];
            let ghost before = buckets@;
            proof {
                lemma_src_of(d, i as int, e as int);
                assert(triples(d)[e as int] == (NodeIdx(i as u32), target, link));
                assert forall|w: int| 0 <= w < n implies #[trigger] keep_map(
                    triples(d).subrange(0, e + 1),
                    into(w),
                ) == if w == target.0 {
                    keep_map(triples(d).subrange(0, e as int), into(w)).push((NodeIdx(i as u32), link))
                } else {
                    keep_map(triples(d).subrange(0, e as int), into(w))
                } by {
                    lemma_keep_map_step(triples(d), e as int, into(w));
                }
            }
            buckets[target.usize()].push((NodeIdx::new(i), link));
            proof {
                assert forall|w: int| 0 <= w < n implies (#[trigger] buckets@[w])@ == keep_map(
                    triples(d).subrange(0, e + 1),
                    into(w),
                ) by {
                    if w != target.0 {
                        assert(buckets@[w] == before[w]);
                    }
                }
                lemma_total_grow(before, buckets@, target.0 as int, n as int);
                assert forall|w: int, j: int|
                    0 <= w < n && 0 <= j < buckets@[w]@.len() implies (#[trigger] buckets@[w]@[j]).0.0 < n by {
                    if w != target.0 {
                        assert(buckets@[w] == before[w]);
                    } else if j < before[w]@.len() {
                        assert(buckets@[w]@[j] == before[w]@[j]);
                    }
                }
            }
            e = e + 1;
        }
        i = i + 1;
    }
    assert(d.start(n as int) == d.edges.len());
    assert(triples(d).subrange(0, d.edges.len() as int) =~= triples(d));
    let mut graph = Graph::with_capacity(n, data.links.len());
    let mut links: Vec<Link> = Vec::with_capacity(data.links.len());
    let mut v: usize = 0;
    while v < n
        invariant
            d == data@,
            d.well_formed(),
            n == d.nodes.len(),
            0 <= v <= n,
            buckets@.len() == n,
            forall|w: int| 0 <= w < n ==> (#[trigger] buckets@[w])@ == incoming(d, w),
            total(buckets@, n as int) == d.edges.len(),
            forall|w: int, j: int|
                0 <= w < n && 0 <= j < buckets@[w]@.len() ==> (#[trigger] buckets@[w]@[j]).0.0 < n,
            graph.nodes@.len() == v,
            graph.edges@.len() == total(buckets@, v as int),
            building(graph.nodes@, graph.edges@, links@, n as int),
            forall|j: int|
                0 <= j < v ==> #[trigger] adj_of(graph.nodes@, graph.edges@, links@, j) == incoming(d, j),
        decreases n - v,
    {
        proof {
            lemma_total_mono(buckets@, v + 1, n as int);
            lemma_total_mono(buckets@, v as int, n as int);
            lemma_push_node(graph.nodes@, graph.edges@, links@);
        }
        graph.add_node();
        let bucket = &buckets[v];
        let mut k: usize = 0;
        while k < bucket.len()
            invariant
                d == data@,
                d.well_formed(),
                n == d.nodes.len(),
                0 <= v < n,
                buckets@.len() == n,
                forall|w: int| 0 <= w < n ==> (#[trigger] buckets@[w])@ == incoming(d, w),
                total(buckets@, n as int) == d.edges.len(),
                forall|w: int, j: int|
                    0 <= w < n && 0 <= j < buckets@[w]@.len() ==> (#[trigger] buckets@[w]@[j]).0.0 < n,
                bucket == buckets@[v as int],
                0 <= k <= bucket@.len(),
                graph.nodes@.len() == v + 1,
                graph.edges@.len() == total(buckets@, v as int) + k,
                total(buckets@, v as int) + bucket@.len() <= d.edges.len(),
                building(graph.nodes@, graph.edges@, links@, n as int),
                forall|j: int|
                    0 <= j < v ==> #[trigger] adj_of(graph.nodes@, graph.edges@, links@, j) == incoming(d, j),
                adj_of(graph.nodes@, graph.edges@, links@, v as int) == bucket@.subrange(0, k as int),
            decreases bucket@.len() - k,
        {
            let (source, link) = bucket[k];
            proof {
                lemma_push_edge(graph.nodes@, graph.edges@, links@, source, link);
                assert(bucket@[k as int] == buckets@[v as int]@[k as int]);
            }
            graph.add_edge(source);
            links.push(link);
            k = k + 1;
            assert(bucket@.subrange(0, k as int) =~= bucket@.subrange(0, k - 1).push((source, link)));
        }
        assert(bucket@.subrange(0, bucket@.len() as int) =~= bucket@);
        v = v + 1;
    }
    data.links = links;
    data.graph = graph;
    assert(forall|j: int| 0 <= j < n ==> #[trigger] adj(data@, j) == adj_of(graph.nodes@, graph.edges@, links@, j));
}

} // verus!
