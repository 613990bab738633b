//! The "first link" game: each page forwards along its first eligible link
//! (not in parentheses, not in structural markup). That map has at most one
//! edge per node, so every page ends in a dead end or in a cycle; pages are
//! grouped into clusters named after that dead end or the smallest node of
//! that cycle.

use vstd::prelude::*;
use vstd::set_lib::*;

use crate::data::{flag_set, Data, DataView, Link, FLAG_IN_PARENS, FLAG_IN_STRUCTURE};
use crate::edit::adj;
use crate::graph::{NodeIdx, U32_MAX};

verus! {

/// Where node `v` goes in one step; a node without a forward edge stays.
pub open spec fn step(f: Seq<NodeIdx>, v: int) -> int {
    if f[v].is_none_spec() {
        v
    } else {
        f[v].0 as int
    }
}

/// Where node `v` is after `k` steps.
pub open spec fn walk(f: Seq<NodeIdx>, v: int, k: nat) -> int
    decreases k,
{
    if k == 0 {
        v
    } else {
        step(f, walk(f, v, (k - 1) as nat))
    }
}

/// Every entry is the "no node" marker or an index into the map.
pub open spec fn functional(f: Seq<NodeIdx>) -> bool {
    &&& f.len() < U32_MAX
    &&& forall|v: int| 0 <= v < f.len() ==> (#[trigger] f[v]).is_none_spec() || f[v].0 < f.len()
}

pub open spec fn dead_end(f: Seq<NodeIdx>, v: int) -> bool {
    f[v].is_none_spec()
}

/// `v` comes back to itself after `k >= 1` steps and is the smallest node
/// on the way.
pub open spec fn cycle_min_by(f: Seq<NodeIdx>, v: int, k: nat) -> bool {
    &&& k >= 1
    &&& walk(f, v, k) == v
    &&& forall|j: nat| j < k ==> v <= #[trigger] walk(f, v, j)
}

/// `v` is the smallest node of a cycle.
pub open spec fn cycle_min(f: Seq<NodeIdx>, v: int) -> bool {
    exists|k: nat| cycle_min_by(f, v, k)
}

/// `v` can name a cluster: it is a dead end or the smallest node of a cycle.
pub open spec fn canonical(f: Seq<NodeIdx>, v: int) -> bool {
    dead_end(f, v) || cycle_min(f, v)
}

/// `b` is reached from `a` by following forward edges.
pub open spec fn reaches(f: Seq<NodeIdx>, a: int, b: int) -> bool {
    exists|k: nat| walk(f, a, k) == b
}

pub proof fn lemma_walk_in_range(f: Seq<NodeIdx>, v: int, k: nat)
    requires
        functional(f),
        0 <= v < f.len(),
    ensures
        0 <= walk(f, v, k) < f.len(),
    decreases k,
{
    if k > 0 {
        lemma_walk_in_range(f, v, (k - 1) as nat);
    }
}

pub proof fn lemma_walk_add(f: Seq<NodeIdx>, v: int, a: nat, b: nat)
    ensures
        walk(f, v, a + b) == walk(f, walk(f, v, a), b),
    decreases b,
{
    if b > 0 {
        lemma_walk_add(f, v, a, (b - 1) as nat);
        assert((a + b - 1) as nat == a + (b - 1) as nat);
    }
}

/// Once two walks meet they go on together.
proof fn lemma_walk_shift(f: Seq<NodeIdx>, v: int, a: nat, b: nat, x: nat)
    requires
        walk(f, v, a) == walk(f, v, b),
    ensures
        walk(f, v, a + x) == walk(f, v, b + x),
{
    lemma_walk_add(f, v, a, x);
    lemma_walk_add(f, v, b, x);
}

/// A walk that visits `len` distinct nodes other than `cur` has fewer
/// than `n` of them.
proof fn lemma_trail_short(trail: Seq<int>, cur: int, n: int)
    requires
        trail.no_duplicates(),
        forall|t: int| 0 <= t < trail.len() ==> 0 <= #[trigger] trail[t] < n,
        0 <= cur < n,
        !trail.contains(cur),
    ensures
        trail.len() < n,
{
    let s = trail.push(cur);
    assert(s.no_duplicates()) by {
        assert forall|a: int, b: int| 0 <= a < s.len() && 0 <= b < s.len() && a != b implies s[a] != s[b] by {
            if a == trail.len() {
                assert(s[b] == trail[b]);
            } else if b == trail.len() {
                assert(s[a] == trail[a]);
            }
        }
    }
    s.unique_seq_to_set();
    assert(s.to_set().subset_of(set_int_range(0, n)));
    lemma_int_range(0, n);
    lemma_len_subset(s.to_set(), set_int_range(0, n));
}

/// A link counts for the game when it is neither in parentheses nor in
/// structural markup.
pub open spec fn eligible(l: Link) -> bool {
    !flag_set(l.flags, FLAG_IN_PARENS) && !flag_set(l.flags, FLAG_IN_STRUCTURE)
}

/// Target of the first eligible link in `s`.
pub open spec fn first_eligible(s: Seq<(NodeIdx, Link)>) -> Option<NodeIdx>
    decreases s.len(),
{
    if s.len() == 0 {
        None
    } else if eligible(s[0].1) {
        Some(s[0].0)
    } else {
        first_eligible(s.drop_first())
    }
}

/// The target of the first eligible link of `node`, if any.
pub fn first_viable_link(data: &Data, node: NodeIdx) -> (r: Option<NodeIdx>)
    requires
        data.wf(),
        node.0 < data@.pages.len(),
    ensures
        r == first_eligible(adj(data@, node.0 as int)),
{
    let ghost a = adj(data@, node.0 as int);
    let range = data.graph.edge_range(node);
    assert(a.subrange(0, a.len() as int) =~= a);
    let mut e = range.start;
    while e < range.end
        invariant
            data.wf(),
            a == adj(data@, node.0 as int),
            node.0 < data@.pages.len(),
            range.start == data@.start(node.0 as int),
            range.end == data@.start(node.0 + 1),
            range.start <= e <= range.end,
            a.len() == range.end - range.start,
            first_eligible(a) == first_eligible(a.subrange(e - range.start, a.len() as int)),
        decreases range.end - e,
    {
        let link = data.links[e];
        let k = e - range.start;
        assert(a[k as int] == (data.graph.edges@[e as int], link));
        assert(a.subrange(k as int, a.len() as int).drop_first() =~= a.subrange(k + 1, a.len() as int));
        if !link.in_parens() && !link.in_structure() {
            return Some(data.graph.edges[e]);
        }
        e = e + 1;
    }
    None
}

/// For every node, the target of its first eligible link, or the "no node"
/// marker.
pub fn find_forward_edges(data: &Data) -> (r: Vec<NodeIdx>)
    requires
        data.wf(),
    ensures
        r@.len() == data@.pages.len(),
        functional(r@),
        forall|v: int|
            0 <= v < r@.len() ==> #[trigger] r@[v] == match first_eligible(adj(data@, v)) {
                Some(t) => t,
                None => NodeIdx(U32_MAX),
            },
{
    let n = data.pages.len();
    let mut r: Vec<NodeIdx> = Vec::with_capacity(n);
    let mut v: usize = 0;
    while v < n
        invariant
            data.wf(),
            n == data@.pages.len(),
            0 <= v <= n,
            r@.len() == v,
            forall|w: int| 0 <= w < v ==> (#[trigger] r@[w]).is_none_spec() || r@[w].0 < n,
            forall|w: int|
                0 <= w < v ==> #[trigger] r@[w] == match first_eligible(adj(data@, w)) {
                    Some(t) => t,
                    None => NodeIdx(U32_MAX),
                },
        decreases n - v,
    {
        let t = match first_viable_link(data, NodeIdx::new(v)) {
            Some(t) => {
                proof {
                    lemma_first_eligible_in(adj(data@, v as int));
                    lemma_adj_targets(data@, v as int);
                }
                t
            },
            None => NodeIdx::none(),
        };
        r.push(t);
        v = v + 1;
    }
    r
}

proof fn lemma_first_eligible_in(s: Seq<(NodeIdx, Link)>)
    ensures
        first_eligible(s) is Some ==> exists|k: int| 0 <= k < s.len() && s[k].0 == first_eligible(s).unwrap(),
    decreases s.len(),
{
    if s.len() > 0 && !eligible(s[0].1) {
        lemma_first_eligible_in(s.drop_first());
        if first_eligible(s) is Some {
            let k = choose|k: int| 0 <= k < s.drop_first().len() && s.drop_first()[k].0 == first_eligible(s).unwrap();
            assert(s[k + 1].0 == first_eligible(s).unwrap());
        }
    }
}

proof fn lemma_adj_targets(d: DataView, v: int)
    requires
        d.well_formed(),
        0 <= v < d.pages.len(),
    ensures
        forall|k: int| 0 <= k < adj(d, v).len() ==> (#[trigger] adj(d, v)[k]).0.0 < d.pages.len(),
{
    assert forall|k: int| 0 <= k < adj(d, v).len() implies (#[trigger] adj(d, v)[k]).0.0 < d.pages.len() by {
        assert(d.start(v) <= d.start(v + 1) <= d.edges.len());
        assert(adj(d, v)[k].0 == d.edges[d.start(v) + k]);
    }
}

/// The representative of every node: the dead end its forward walk stops
/// at, or the smallest node of the cycle the walk runs into. Each node's
/// walk is traced until it meets a node already classified, a node seen
/// earlier in the same walk (a cycle), or a dead end; every node on the
/// walk then gets the same representative.
pub fn find_clusters(forward: &Vec<NodeIdx>) -> (cluster: Vec<NodeIdx>)
    requires
        functional(forward@),
    ensures
        cluster@.len() == forward@.len(),
        forall|v: int|
            0 <= v < cluster@.len() ==> {
                &&& (#[trigger] cluster@[v]).0 < forward@.len()
                &&& reaches(forward@, v, cluster@[v].0 as int)
                &&& canonical(forward@, cluster@[v].0 as int)
            },
{
    let ghost f = forward@;
    let n = forward.len();
    let mut cluster: Vec<NodeIdx> = vec![NodeIdx::none(); n];
    let mut stamp: Vec<usize> = vec![0; n];
    let mut pos: Vec<usize> = vec![0; n];
    let ghost mut steps: Seq<nat> = Seq::new(n as nat, |v: int| 0);
    let ghost mut period: Seq<nat> = Seq::new(n as nat, |v: int| 0);
    let mut i: usize = 0;
    while i < n
        invariant
            f == forward@,
            functional(f),
            n == f.len(),
            0 <= i <= n,
            cluster@.len() == n,
            stamp@.len() == n,
            pos@.len() == n,
            steps.len() == n,
            period.len() == n,
            forall|v: int| 0 <= v < n ==> #[trigger] stamp@[v] <= i,
            forall|v: int| 0 <= v < i ==> !(#[trigger] cluster@[v]).is_none_spec(),
            forall|v: int|
                0 <= v < n && !(#[trigger] cluster@[v]).is_none_spec() ==> {
                    let c = cluster@[v].0 as int;
                    &&& 0 <= c < n
                    &&& walk(f, v, steps[v]) == c
                    &&& (dead_end(f, c) || cycle_min_by(f, c, period[c]))
                },
        decreases n - i,
    {
        if !cluster[i].is_none() {
            i = i + 1;
            continue;
        }
        let mark = i + 1;
        let mut trail: Vec<NodeIdx> = Vec::new();
        let mut cur = NodeIdx::new(i);
        let ghost mut gt: Seq<int> = Seq::empty();
        // how the walk ended: 0 = known node, 1 = dead end, 2 = cycle at `pos[cur]`
        let mut how: u8 = 0;
        loop
            invariant_except_break
                f == forward@,
                functional(f),
                n == f.len(),
                0 <= i < n,
                mark == i + 1,
                cluster@.len() == n,
                stamp@.len() == n,
                pos@.len() == n,
                steps.len() == n,
                period.len() == n,
                cur.0 < n,
                cur.0 as int == walk(f, i as int, gt.len()),
                trail@.len() == gt.len(),
                forall|t: int| 0 <= t < gt.len() ==> (#[trigger] trail@[t]).0 as int == gt[t],
                forall|t: int| 0 <= t < gt.len() ==> #[trigger] gt[t] == walk(f, i as int, t as nat),
                forall|t: int| 0 <= t < gt.len() ==> 0 <= #[trigger] gt[t] < n,
                forall|t: int|
                    0 <= t < gt.len() ==> stamp@[#[trigger] gt[t]] == mark && pos@[gt[t]] == t,
                forall|v: int|
                    0 <= v < n && #[trigger] stamp@[v] == mark ==> pos@[v] < gt.len() && gt[pos@[v] as int] == v,
                forall|v: int| 0 <= v < n ==> #[trigger] stamp@[v] <= mark,
                forall|t: int| 0 <= t < gt.len() ==> (#[trigger] cluster@[gt[t]]).is_none_spec(),
                cluster@[i as int].is_none_spec(),
                gt.no_duplicates(),
                forall|v: int| 0 <= v < i ==> !(#[trigger] cluster@[v]).is_none_spec(),
                forall|v: int|
                    0 <= v < n && !(#[trigger] cluster@[v]).is_none_spec() ==> {
                        let c = cluster@[v].0 as int;
                        &&& 0 <= c < n
                        &&& walk(f, v, steps[v]) == c
                        &&& (dead_end(f, c) || cycle_min_by(f, c, period[c]))
                    },
            ensures
                f == forward@,
                cluster@.len() == n,
                stamp@.len() == n,
                pos@.len() == n,
                cur.0 < n,
                trail@.len() == gt.len(),
                gt.len() >= 1,
                forall|t: int| 0 <= t < gt.len() ==> (#[trigger] trail@[t]).0 as int == gt[t],
                forall|t: int| 0 <= t < gt.len() ==> #[trigger] gt[t] == walk(f, i as int, t as nat),
                forall|t: int| 0 <= t < gt.len() ==> 0 <= #[trigger] gt[t] < n,
                forall|t: int| 0 <= t < gt.len() ==> (#[trigger] cluster@[gt[t]]).is_none_spec(),
                gt.no_duplicates(),
                forall|v: int| 0 <= v < n ==> #[trigger] stamp@[v] <= mark,
                how == 0 ==> cur.0 as int == walk(f, i as int, gt.len()) && !cluster@[cur.0 as int].is_none_spec(),
                how == 1 ==> cur.0 as int == gt.last() && dead_end(f, cur.0 as int),
                how == 2 ==> cur.0 as int == walk(f, i as int, gt.len()) && pos@[cur.0 as int] < gt.len()
                    && gt[pos@[cur.0 as int] as int] == cur.0 as int,
                how <= 2,
            decreases n - gt.len(),
        {
            if !cluster[cur.usize()].is_none() {
                how = 0;
                break;
            }
            if stamp[cur.usize()] == mark {
                how = 2;
                break;
            }
            proof {
                assert(!gt.contains(cur.0 as int)) by {
                    if gt.contains(cur.0 as int) {
                        let t = choose|t: int| 0 <= t < gt.len() && gt[t] == cur.0 as int;
                        assert(stamp@[gt[t]] == mark);
                    }
                }
                lemma_trail_short(gt, cur.0 as int, n as int);
            }
            stamp[cur.usize()] = mark;
            pos[cur.usize()] = trail.len();
            trail.push(cur);
            proof {
                let old_gt = gt;
                gt = gt.push(cur.0 as int);
                assert(gt.no_duplicates()) by {
                    assert forall|a: int, b: int| 0 <= a < gt.len() && 0 <= b < gt.len() && a != b implies gt[a] != gt[b] by {
                        if a == old_gt.len() {
                            assert(gt[b] == old_gt[b]);
                        } else if b == old_gt.len() {
                            assert(gt[a] == old_gt[a]);
                        } else {
                            assert(gt[a] == old_gt[a] && gt[b] == old_gt[b]);
                        }
                    }
                }
            }
            let next = forward[cur.usize()];
            if next.is_none() {
                how = 1;
                break;
            }
            proof {
                lemma_walk_in_range(f, i as int, gt.len());
            }
            cur = next;
        }
        let len = trail.len();
        // the representative, and where it sits in the walk (cycles only)
        let mut rep = cur;
        let mut m: usize = 0;
        if how == 0 {
            rep = cluster[cur.usize()];
        } else if how == 2 {
            let p = pos[cur.usize()];
            m = p;
            let mut t = p;
            while t < len
                invariant
                    p <= m < len,
                    p <= t <= len,
                    len == gt.len(),
                    trail@.len() == gt.len(),
                    forall|x: int| 0 <= x < gt.len() ==> (#[trigger] trail@[x]).0 as int == gt[x],
                    forall|x: int| p <= x < t ==> gt[m as int] <= #[trigger] gt[x],
                decreases len - t,
            {
                if trail[t].0 < trail[m].0 {
                    m = t;
                }
                t = t + 1;
            }
            rep = trail[m];
        }
        let ghost c = rep.0 as int;
        proof {
            if how == 2 {
                let p = pos@[cur.0 as int] as int;
                let l = (len - p) as nat;
                lemma_walk_shift(f, i as int, p as nat, len as nat, (m - p) as nat);
                lemma_walk_add(f, i as int, m as nat, l);
                assert(m as nat + l == len as nat + (m - p) as nat);
                assert forall|j: nat| j < l implies c <= #[trigger] walk(f, c, j) by {
                    lemma_walk_add(f, i as int, m as nat, j);
                    if m + j < len {
                        assert(walk(f, i as int, (m + j) as nat) == gt[m + j]);
                    } else {
                        let back = (p + (m + j - len)) as nat;
                        lemma_walk_shift(f, i as int, len as nat, p as nat, (m + j - len) as nat);
                        assert((len as nat + (m + j - len) as nat) == m as nat + j);
                        assert(walk(f, i as int, back) == gt[back as int]);
                    }
                }
                period = period.update(c, l);
                assert(cycle_min_by(f, c, period[c]));
            }
            assert forall|x: int| 0 <= x < gt.len() implies reaches(f, #[trigger] gt[x], c) by {
                let gx = gt[x];
                lemma_walk_add(f, i as int, x as nat, (len - x) as nat);
                assert(x as nat + (len - x) as nat == len as nat);
                if how == 0 {
                    let k = steps[cur.0 as int];
                    lemma_walk_add(f, gx, (len - x) as nat, k);
                    assert(walk(f, gx, ((len - x) as nat + k) as nat) == c);
                } else if how == 1 {
                    lemma_walk_add(f, i as int, x as nat, (len - 1 - x) as nat);
                    assert(x as nat + (len - 1 - x) as nat == (len - 1) as nat);
                    assert(walk(f, gx, (len - 1 - x) as nat) == c);
                } else {
                    let p = pos@[cur.0 as int] as int;
                    if x <= m {
                        lemma_walk_add(f, i as int, x as nat, (m - x) as nat);
                        assert(x as nat + (m - x) as nat == m as nat);
                        assert(walk(f, gx, (m - x) as nat) == c);
                    } else {
                        lemma_walk_add(f, gx, (len - x) as nat, (m - p) as nat);
                        lemma_walk_add(f, i as int, len as nat, (m - p) as nat);
                        lemma_walk_shift(f, i as int, len as nat, p as nat, (m - p) as nat);
                        assert(p as nat + (m - p) as nat == m as nat);
                        assert(walk(f, gx, ((len - x) as nat + (m - p) as nat) as nat) == c);
                    }
                }
            }
        }
        let mut t: usize = 0;
        while t < len
            invariant
                f == forward@,
                functional(f),
                n == f.len(),
                0 <= i < n,
                len == gt.len(),
                gt.len() >= 1,
                trail@.len() == gt.len(),
                gt.no_duplicates(),
                cluster@.len() == n,
                stamp@.len() == n,
                steps.len() == n,
                period.len() == n,
                0 <= t <= len,
                c == rep.0 as int,
                0 <= c < n,
                dead_end(f, c) || cycle_min_by(f, c, period[c]),
                forall|x: int| 0 <= x < gt.len() ==> (#[trigger] trail@[x]).0 as int == gt[x],
                forall|x: int| 0 <= x < gt.len() ==> #[trigger] gt[x] == walk(f, i as int, x as nat),
                forall|x: int| 0 <= x < gt.len() ==> 0 <= #[trigger] gt[x] < n,
                forall|x: int| t <= x < gt.len() ==> (#[trigger] cluster@[gt[x]]).is_none_spec(),
                forall|x: int| 0 <= x < t ==> !(#[trigger] cluster@[gt[x]]).is_none_spec(),
                gt[0] == i,
                forall|v: int| 0 <= v < i ==> !(#[trigger] cluster@[v]).is_none_spec(),
                forall|v: int|
                    0 <= v < n && !(#[trigger] cluster@[v]).is_none_spec() ==> {
                        let cc = cluster@[v].0 as int;
                        &&& 0 <= cc < n
                        &&& walk(f, v, steps[v]) == cc
                        &&& (dead_end(f, cc) || cycle_min_by(f, cc, period[cc]))
                    },
                // every node of the walk reaches the representative
                forall|x: int| 0 <= x < gt.len() ==> reaches(f, #[trigger] gt[x], c),
            decreases len - t,
        {
            let v = trail[t];
            proof {
                let k = choose|k: nat| walk(f, gt[t as int], k) == c;
                steps = steps.update(v.0 as int, k);
            }
            cluster[v.usize()] = rep;
            t = t + 1;
        }
        i = i + 1;
    }
    proof {
        assert forall|v: int| 0 <= v < cluster@.len() implies {
            &&& (#[trigger] cluster@[v]).0 < forward@.len()
            &&& reaches(forward@, v, cluster@[v].0 as int)
            &&& canonical(forward@, cluster@[v].0 as int)
        } by {
            let c = cluster@[v].0 as int;
            assert(walk(f, v, steps[v]) == c);
            if !dead_end(f, c) {
                assert(cycle_min_by(f, c, period[c]));
            }
        }
    }
    cluster
}

proof fn lemma_dead_end_stays(f: Seq<NodeIdx>, d: int, k: nat)
    requires
        dead_end(f, d),
    ensures
        walk(f, d, k) == d,
    decreases k,
{
    if k > 0 {
        lemma_dead_end_stays(f, d, (k - 1) as nat);
    }
}

/// On a cycle of length `p` through `c`, only the remainder modulo `p`
/// of the number of steps matters.
proof fn lemma_periodic(f: Seq<NodeIdx>, c: int, p: nat, x: nat)
    requires
        p >= 1,
        walk(f, c, p) == c,
    ensures
        walk(f, c, x) == walk(f, c, x % p),
    decreases x,
{
    if x >= p {
        lemma_walk_add(f, c, p, (x - p) as nat);
        assert(p + (x - p) as nat == x);
        lemma_periodic(f, c, p, (x - p) as nat);
        assert((x - p) as nat % p == x % p) by {
            vstd::arithmetic::div_mod::lemma_mod_sub_multiples_vanish(x as int, p as int);
        }
    } else {
        assert(x % p == x) by {
            vstd::arithmetic::div_mod::lemma_small_mod(x, p);
        }
    }
}

/// A canonical node ahead of another canonical node is the same node.
proof fn lemma_canonical_ahead(f: Seq<NodeIdx>, c1: int, d: nat, c2: int)
    requires
        canonical(f, c1),
        canonical(f, c2),
        walk(f, c1, d) == c2,
    ensures
        c1 == c2,
{
    if dead_end(f, c1) {
        lemma_dead_end_stays(f, c1, d);
    } else {
        let per1 = choose|k: nat| cycle_min_by(f, c1, k);
        lemma_periodic(f, c1, per1, d);
        let r = d % per1;
        assert(c1 <= c2);
        let e = (per1 - r) as nat;
        lemma_walk_add(f, c1, r, e);
        assert(r + e == per1);
        assert(walk(f, c2, e) == c1);
        if dead_end(f, c2) {
            lemma_dead_end_stays(f, c2, e);
        } else {
            let per2 = choose|k: nat| cycle_min_by(f, c2, k);
            lemma_periodic(f, c2, per2, e);
            assert(c2 <= walk(f, c2, e % per2));
        }
    }
}

/// Every node has exactly one possible representative: two canonical
/// nodes (dead ends or smallest nodes of a cycle) reached from the same node
/// are equal. So nodes of one cluster share one representative, and that of
/// a cycle is its smallest member.
pub proof fn lemma_canonical_unique(f: Seq<NodeIdx>, v: int, c1: int, c2: int)
    requires
        reaches(f, v, c1),
        reaches(f, v, c2),
        canonical(f, c1),
        canonical(f, c2),
    ensures
        c1 == c2,
{
    let k1 = choose|k: nat| walk(f, v, k) == c1;
    let k2 = choose|k: nat| walk(f, v, k) == c2;
    if k1 <= k2 {
        lemma_walk_add(f, v, k1, (k2 - k1) as nat);
        assert(k1 + (k2 - k1) as nat == k2);
        lemma_canonical_ahead(f, c1, (k2 - k1) as nat, c2);
    } else {
        lemma_walk_add(f, v, k2, (k1 - k2) as nat);
        assert(k2 + (k1 - k2) as nat == k1);
        lemma_canonical_ahead(f, c2, (k1 - k2) as nat, c1);
    }
}

/// A node and the node its forward edge leads to have the same
/// representative.
pub proof fn lemma_forward_same_cluster(f: Seq<NodeIdx>, v: int, cv: int, cw: int)
    requires
        !dead_end(f, v),
        reaches(f, v, cv),
        canonical(f, cv),
        reaches(f, step(f, v), cw),
        canonical(f, cw),
    ensures
        cv == cw,
{
    let k = choose|k: nat| walk(f, step(f, v), k) == cw;
    lemma_walk_add(f, v, 1, k);
    assert(walk(f, v, 0) == v);
    assert(walk(f, v, 1) == step(f, v));
    assert(walk(f, v, 1 + k) == cw);
    lemma_canonical_unique(f, v, cv, cw);
}

/// A node without a forward edge is its own representative.
pub proof fn lemma_dead_end_own_cluster(f: Seq<NodeIdx>, d: int, c: int)
    requires
        dead_end(f, d),
        reaches(f, d, c),
    ensures
        c == d,
{
    let k = choose|k: nat| walk(f, d, k) == c;
    lemma_dead_end_stays(f, d, k);
}

/// The members of the cycle whose smallest node is `c`, in walking order
/// from `c`.
pub fn cycle_members(forward: &Vec<NodeIdx>, c: NodeIdx) -> (r: Vec<NodeIdx>)
    requires
        functional(forward@),
        c.0 < forward@.len(),
        cycle_min(forward@, c.0 as int),
        !dead_end(forward@, c.0 as int),
    ensures
        r@.len() >= 1,
        forall|j: int| 0 <= j < r@.len() ==> (#[trigger] r@[j]).0 as int == walk(forward@, c.0 as int, j as nat),
        walk(forward@, c.0 as int, r@.len()) == c.0,
        forall|j: int| 0 < j < r@.len() ==> (#[trigger] r@[j]) != c,
{
    let ghost f = forward@;
    let ghost p = choose|k: nat| cycle_min_by(f, c.0 as int, k);
    let mut r: Vec<NodeIdx> = Vec::new();
    r.push(c);
    let mut cur = c;
    proof {
        lemma_walk_in_range(f, c.0 as int, 1);
    }
    let mut next = forward[c.usize()];
    while next != c
        invariant
            f == forward@,
            functional(f),
            c.0 < f.len(),
            cycle_min_by(f, c.0 as int, p),
            !dead_end(f, c.0 as int),
            1 <= r@.len() <= p,
            cur.0 as int == walk(f, c.0 as int, (r@.len() - 1) as nat),
            next.0 as int == walk(f, c.0 as int, r@.len() as nat),
            next.0 < f.len(),
            forall|j: int| 0 <= j < r@.len() ==> (#[trigger] r@[j]).0 as int == walk(f, c.0 as int, j as nat),
            forall|j: int| 0 < j < r@.len() ==> (#[trigger] r@[j]) != c,
        decreases p - r@.len(),
    {
        assert(r@.len() < p) by {
            if r@.len() == p {
                assert(next.0 as int == c.0);
            }
        }
        r.push(next);
        cur = next;
        proof {
            lemma_walk_in_range(f, c.0 as int, r@.len() as nat);
        }
        next = forward[cur.usize()];
        proof {
            if next.is_none_spec() {
                assert(walk(f, c.0 as int, r@.len() as nat) == cur.0);
                assert(false) by {
                    assert(dead_end(f, cur.0 as int));
                    lemma_dead_end_stays(f, cur.0 as int, (p - (r@.len() - 1)) as nat);
                    lemma_walk_add(f, c.0 as int, (r@.len() - 1) as nat, (p - (r@.len() - 1)) as nat);
                    assert((r@.len() - 1) as nat + (p - (r@.len() - 1)) as nat == p);
                }
            }
        }
    }
    r
}

/// How many entries of `s` are `c`.
pub open spec fn count_of(s: Seq<NodeIdx>, c: NodeIdx) -> nat
    decreases s.len(),
{
    if s.len() == 0 {
        0
    } else {
        count_of(s.drop_last(), c) + if s.last() == c { 1nat } else { 0nat }
    }
}

proof fn lemma_count_of_len(s: Seq<NodeIdx>, c: NodeIdx)
    ensures
        count_of(s, c) <= s.len(),
    decreases s.len(),
{
    if s.len() > 0 {
        lemma_count_of_len(s.drop_last(), c);
    }
}

/// Every value of `s` is counted at least once; so a dead end's cluster,
/// which holds the dead end itself, has size at least one.
pub proof fn lemma_count_positive(s: Seq<NodeIdx>, k: int)
    requires
        0 <= k < s.len(),
    ensures
        count_of(s, s[k]) >= 1,
    decreases s.len(),
{
    if k < s.len() - 1 {
        lemma_count_positive(s.drop_last(), k);
        assert(s.drop_last()[k] == s[k]);
    }
}

/// The size of every cluster, indexed by its representative.
pub fn cluster_sizes(cluster: &Vec<NodeIdx>) -> (r: Vec<u32>)
    requires
        cluster@.len() < U32_MAX,
        forall|v: int| 0 <= v < cluster@.len() ==> (#[trigger] cluster@[v]).0 < cluster@.len(),
    ensures
        r@.len() == cluster@.len(),
        forall|c: int| 0 <= c < r@.len() ==> #[trigger] r@[c] == count_of(cluster@, NodeIdx(c as u32)),
{
    let n = cluster.len();
    let mut r: Vec<u32> = vec![0; n];
    let mut v: usize = 0;
    while v < n
        invariant
            n == cluster@.len(),
            n < U32_MAX,
            forall|x: int| 0 <= x < n ==> (#[trigger] cluster@[x]).0 < n,
            0 <= v <= n,
            r@.len() == n,
            forall|c: int| 0 <= c < n ==> #[trigger] r@[c] == count_of(cluster@.subrange(0, v as int), NodeIdx(c as u32)),
        decreases n - v,
    {
        let c = cluster[v].usize();
        proof {
            assert(cluster@.subrange(0, v + 1).drop_last() =~= cluster@.subrange(0, v as int));
            lemma_count_of_len(cluster@.subrange(0, v as int), NodeIdx(c as u32));
        }
        r[c] = r[c] + 1;
        v = v + 1;
    }
    assert(cluster@.subrange(0, n as int) =~= cluster@);
    r
}


/// The first-link walk from `start`: the nodes passed, in order, up to a
/// dead end or up to the last node before the walk comes back to one it
/// passed.
pub fn trace(forward: &Vec<NodeIdx>, start: NodeIdx) -> (r: Vec<NodeIdx>)
    requires
        functional(forward@),
        start.0 < forward@.len(),
    ensures
        1 <= r@.len() <= forward@.len(),
        forall|k: int| 0 <= k < r@.len() ==> (#[trigger] r@[k]).0 as int == walk(forward@, start.0 as int, k as nat),
        dead_end(forward@, r@.last().0 as int) || r@.contains(forward@[r@.last().0 as int]),
{
    let ghost f = forward@;
    let ghost s = start.0 as int;
    let n = forward.len();
    let mut nodes: Vec<NodeIdx> = Vec::new();
    nodes.push(start);
    let mut cur = start;
    loop
        invariant_except_break
            f == forward@,
            functional(f),
            n == f.len(),
            0 <= s < n,
            s == start.0,
            cur.0 < n,
            1 <= nodes@.len() <= n,
            cur == nodes@.last(),
            nodes@.no_duplicates(),
            forall|k: int| 0 <= k < nodes@.len() ==> (#[trigger] nodes@[k]).0 as int == walk(f, s, k as nat),
            forall|k: int| 0 <= k < nodes@.len() ==> (#[trigger] nodes@[k]).0 < n,
        ensures
            1 <= nodes@.len() <= n,
            forall|k: int| 0 <= k < nodes@.len() ==> (#[trigger] nodes@[k]).0 as int == walk(f, s, k as nat),
            dead_end(f, nodes@.last().0 as int) || nodes@.contains(f[nodes@.last().0 as int]),
        decreases n - nodes@.len(),
    {
        let next = forward[cur.usize()];
        if next.is_none() {
            break;
        }
        let mut i: usize = 0;
        let mut seen = false;
        while i < nodes.len()
            invariant
                0 <= i <= nodes@.len(),
                !seen ==> forall|j: int| 0 <= j < i ==> nodes@[j] != next,
                seen ==> nodes@.contains(next),
            decreases nodes@.len() - i,
        {
            if nodes[i] == next {
                seen = true;
            }
            i = i + 1;
        }
        if seen {
            break;
        }
        proof {
            lemma_walk_in_range(f, s, nodes@.len() as nat);
            let ints = nodes@.map_values(|v: NodeIdx| v.0 as int);
            assert(ints.no_duplicates()) by {
                assert forall|a: int, b: int| 0 <= a < ints.len() && 0 <= b < ints.len() && a != b implies ints[a] != ints[b] by {
                    assert(nodes@[a] != nodes@[b]);
                }
            }
            assert(!ints.contains(next.0 as int)) by {
                if ints.contains(next.0 as int) {
                    let j = choose|j: int| 0 <= j < ints.len() && ints[j] == next.0 as int;
                    assert(nodes@[j] == next);
                }
            }
            lemma_trail_short(ints, next.0 as int, n as int);
        }
        let ghost old_nodes = nodes@;
        nodes.push(next);
        cur = next;
        proof {
            assert forall|a: int, b: int| 0 <= a < nodes@.len() && 0 <= b < nodes@.len() && a != b implies nodes@[a] != nodes@[b] by {
                if a == old_nodes.len() {
                    assert(nodes@[b] == old_nodes[b]);
                } else if b == old_nodes.len() {
                    assert(nodes@[a] == old_nodes[a]);
                } else {
                    assert(nodes@[a] == old_nodes[a] && nodes@[b] == old_nodes[b]);
                }
            }
        }
    }
    nodes
}

} // verus!
