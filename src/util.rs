//! Redirect chains and small helpers around pages.

use vstd::prelude::*;

use crate::data::{redirect_of, Data, DataView, Page};
use crate::graph::NodeIdx;
use crate::title::{normalized_of, TitleNormalizer};

verus! {

/// The node reached from `node` after following `k` redirects; a page that
/// does not forward anywhere stays where it is.
pub open spec fn chain(d: DataView, node: int, k: nat) -> int
    decreases k,
{
    if k == 0 {
        node
    } else {
        let prev = chain(d, node, (k - 1) as nat);
        match redirect_of(d, prev) {
            Some(t) => t.0 as int,
            None => prev,
        }
    }
}

/// Where the redirect chain from `node` ends, or `None` when it runs into a
/// cycle. A chain that ends does so within as many steps as there are pages,
/// so it is looked at after that many steps.
pub open spec fn resolved(d: DataView, node: int) -> Option<int> {
    let end = chain(d, node, d.pages.len() as nat);
    if redirect_of(d, end) is None {
        Some(end)
    } else {
        None
    }
}

pub proof fn lemma_chain_in_range(d: DataView, node: int, k: nat)
    requires
        d.well_formed(),
        0 <= node < d.pages.len(),
    ensures
        0 <= chain(d, node, k) < d.pages.len(),
    decreases k,
{
    if k > 0 {
        lemma_chain_in_range(d, node, (k - 1) as nat);
    }
}

/// Once the chain stops at a page without a target it stays there.
pub proof fn lemma_chain_stays(d: DataView, node: int, k: nat, m: nat)
    requires
        redirect_of(d, chain(d, node, k)) is None,
        k <= m,
    ensures
        chain(d, node, m) == chain(d, node, k),
    decreases m,
{
    if k < m {
        lemma_chain_stays(d, node, k, (m - 1) as nat);
    }
}

proof fn lemma_chain_shift(d: DataView, node: int, a: nat, b: nat, p: nat)
    requires
        chain(d, node, a) == chain(d, node, b),
    ensures
        chain(d, node, a + p) == chain(d, node, b + p),
    decreases p,
{
    if p > 0 {
        lemma_chain_shift(d, node, a, b, (p - 1) as nat);
        assert(chain(d, node, a + p) == chain(d, node, b + p)) by {
            assert((a + p - 1) as nat == a + (p - 1) as nat);
            assert((b + p - 1) as nat == b + (p - 1) as nat);
        }
    }
}

/// A chain that comes back to a node it passed never reaches a page without
/// a target.
proof fn lemma_chain_cycle(d: DataView, node: int, j: nat, k: nat, m: nat)
    requires
        j <= k,
        chain(d, node, k + 1) == chain(d, node, j),
        forall|i: nat| i <= k ==> #[trigger] redirect_of(d, chain(d, node, i)) is Some,
    ensures
        redirect_of(d, chain(d, node, m)) is Some,
    decreases m,
{
    if m > k {
        let back = (m - (k + 1 - j)) as nat;
        lemma_chain_shift(d, node, j, k + 1, (m - (k + 1)) as nat);
        assert(j + (m - (k + 1)) as nat == back);
        lemma_chain_cycle(d, node, j, k, back);
    }
}

/// A redirect chain that comes back to a node it passed has no end: it
/// resolves to `None`.
pub proof fn lemma_cycle_unresolved(d: DataView, node: int, j: nat, k: nat)
    requires
        j <= k,
        chain(d, node, k + 1) == chain(d, node, j),
        forall|i: nat| i <= k ==> #[trigger] redirect_of(d, chain(d, node, i)) is Some,
    ensures
        resolved(d, node) is None,
{
    lemma_chain_cycle(d, node, j, k, d.pages.len() as nat);
}

/// Index of the first occurrence of `x` in `v`.
fn position_of(v: &Vec<NodeIdx>, x: NodeIdx) -> (r: Option<usize>)
    ensures
        r is Some ==> r.unwrap() < v@.len() && v@[r.unwrap() as int] == x,
        r is None ==> forall|i: int| 0 <= i < v@.len() ==> v@[i] != x,
{
    let mut i: usize = 0;
    while i < v.len()
        invariant
            0 <= i <= v@.len(),
            forall|j: int| 0 <= j < i ==> v@[j] != x,
        decreases v@.len() - i,
    {
        if v[i] == x {
            return Some(i);
        }
        i = i + 1;
    }
    None
}

/// Follows redirects from `node` until a page that does not forward
/// anywhere, and returns it; returns `None` when the chain runs into a cycle.
pub fn resolve_redirects(data: &Data, node: NodeIdx) -> (r: Option<NodeIdx>)
    requires
        data.wf(),
        node.0 < data@.pages.len(),
    ensures
        r == match resolved(data@, node.0 as int) {
            Some(x) => Some(NodeIdx(x as u32)),
            None => None::<NodeIdx>,
        },
{
    let ghost d = data@;
    let ghost start = node.0 as int;
    let n = data.pages.len();
    let mut seen: Vec<NodeIdx> = Vec::new();
    seen.push(node);
    let mut cur = node;
    let mut k: usize = 0;
    loop
        invariant
            d == data@,
            d.well_formed(),
            n == d.pages.len(),
            0 <= start < n,
            start == node.0 as int,
            k <= n,
            cur.0 as int == chain(d, start, k as nat),
            cur.0 < n,
            seen@.len() == k + 1,
            forall|i: int| 0 <= i <= k ==> #[trigger] seen@[i].0 as int == chain(d, start, i as nat),
            forall|i: nat| i < k ==> #[trigger] redirect_of(d, chain(d, start, i)) is Some,
        decreases n - k,
    {
        match data.redirect_target(cur) {
            None => {
                proof {
                    lemma_chain_stays(d, start, k as nat, n as nat);
                }
                return Some(cur);
            },
            Some(next) => {
                if k == n {
                    return None;
                }
                proof {
                    lemma_chain_in_range(d, start, (k + 1) as nat);
                }
                if let Some(i) = position_of(&seen, next) {
                    proof {
                        assert(chain(d, start, (k + 1) as nat) == chain(d, start, i as nat));
                        lemma_chain_cycle(d, start, i as nat, k as nat, n as nat);
                    }
                    return None;
                }
                seen.push(next);
                cur = next;
                k = k + 1;
            },
        }
    }
}

/// Relies on `format!` with two `{}` arguments: the result is the first
/// string followed by the second.
#[verifier::external_body]
pub(crate) fn concat(a: &str, b: &str) -> (r: String)
    ensures
        r@ == a@ + b@,
{
    format!("{}{}", a, b)
}

/// A page as one line of a listing: `v ` before a redirect's title, `- `
/// before an article's.
pub fn fmt_page(page: &Page) -> (r: String)
    ensures
        r@ == (if page.redirect { "v "@ } else { "- "@ }) + page.title@,
{
    if page.redirect {
        concat("v ", page.title.as_str())
    } else {
        concat("- ", page.title.as_str())
    }
}

/// Page `i` has the same normalized title as `q`.
pub open spec fn title_matches(d: DataView, i: int, q: Seq<char>) -> bool {
    normalized_of(d.pages[i].title) == normalized_of(q)
}

/// Page `i` is the first page whose title matches `q`.
pub open spec fn first_match(d: DataView, i: int, q: Seq<char>) -> bool {
    &&& 0 <= i < d.pages.len()
    &&& title_matches(d, i, q)
    &&& forall|j: int| 0 <= j < i ==> !title_matches(d, j, q)
}

/// The first page whose normalized title equals the normalized `title`;
/// `None` when no page has that title.
pub fn locate_title(normalizer: &TitleNormalizer, data: &Data, title: &str) -> (r: Option<NodeIdx>)
    requires
        normalizer.wf(),
        data.wf(),
    ensures
        r is Some ==> first_match(data@, r.unwrap().0 as int, title@),
        r is None ==> forall|j: int| 0 <= j < data@.pages.len() ==> !#[trigger] title_matches(data@, j, title@),
{
    let wanted = normalizer.normalize(title);
    let n = data.pages.len();
    let mut i: usize = 0;
    while i < n
        invariant
            normalizer.wf(),
            data.wf(),
            n == data@.pages.len(),
            0 <= i <= n,
            wanted@ == normalized_of(title@),
            forall|j: int| 0 <= j < i ==> !#[trigger] title_matches(data@, j, title@),
        decreases n - i,
    {
        assert(data@.pages[i as int] == data.pages@[i as int]@);
        let key = normalizer.normalize(data.pages[i].title.as_str());
        if key == wanted {
            return Some(NodeIdx::new(i));
        }
        i = i + 1;
    }
    None
}

/// The page a title leads to once redirects are followed: the first page
/// with that title, resolved. `None` when no page has the title or its
/// redirect chain runs into a cycle.
pub fn resolve_title(normalizer: &TitleNormalizer, data: &Data, title: &str) -> (r: Option<NodeIdx>)
    requires
        normalizer.wf(),
        data.wf(),
    ensures
        r is Some ==> exists|i: int|
            #[trigger] first_match(data@, i, title@) && resolved(data@, i) == Some(r.unwrap().0 as int),
        r is None ==> (forall|j: int| 0 <= j < data@.pages.len() ==> !#[trigger] title_matches(data@, j, title@))
            || exists|i: int| #[trigger] first_match(data@, i, title@) && resolved(data@, i) is None,
{
    let node = match locate_title(normalizer, data, title) {
        Some(n) => n,
        None => return None,
    };
    let r = resolve_redirects(data, node);
    proof {
        assert(first_match(data@, node.0 as int, title@));
        if r is Some {
            lemma_chain_in_range(data@, node.0 as int, data@.pages.len() as nat);
        }
    }
    r
}

/// The redirect chain from `start`: the nodes passed, in order, up to the
/// page that forwards nowhere or up to the last node before the chain comes
/// back to one it passed.
pub fn follow_redirect(data: &Data, start: NodeIdx) -> (r: Vec<NodeIdx>)
    requires
        data.wf(),
        start.0 < data@.pages.len(),
    ensures
        1 <= r@.len() <= data@.pages.len(),
        forall|k: int| 0 <= k < r@.len() ==> (#[trigger] r@[k]).0 as int == chain(data@, start.0 as int, k as nat),
        match redirect_of(data@, r@.last().0 as int) {
            None => true,
            Some(t) => r@.contains(t),
        },
{
    let ghost d = data@;
    let ghost s = start.0 as int;
    let n = data.pages.len();
    let mut nodes: Vec<NodeIdx> = Vec::new();
    nodes.push(start);
    let mut cur = start;
    loop
        invariant_except_break
            d == data@,
            d.well_formed(),
            n == d.pages.len(),
            0 <= s < n,
            s == start.0,
            cur.0 < n,
            1 <= nodes@.len() <= n,
            cur == nodes@.last(),
            nodes@.no_duplicates(),
            forall|k: int| 0 <= k < nodes@.len() ==> (#[trigger] nodes@[k]).0 as int == chain(d, s, k as nat),
            forall|k: int| 0 <= k < nodes@.len() ==> (#[trigger] nodes@[k]).0 < n,
        ensures
            1 <= nodes@.len() <= n,
            forall|k: int| 0 <= k < nodes@.len() ==> (#[trigger] nodes@[k]).0 as int == chain(d, s, k as nat),
            match redirect_of(d, nodes@.last().0 as int) {
                None => true,
                Some(t) => nodes@.contains(t),
            },
        decreases n - nodes@.len(),
    {
        match data.redirect_target(cur) {
            None => break,
            Some(next) => {
                if let Some(i) = position_of(&nodes, next) {
                    assert(nodes@[i as int] == next);
                    break;
                }
                proof {
                    lemma_chain_in_range(d, s, nodes@.len() as nat);
                    lemma_distinct_short(nodes@, next, n as int);
                }
                let ghost old_nodes = nodes@;
                nodes.push(next);
                cur = next;
                proof {
                    assert forall|a: int, b: int| 0 <= a < nodes@.len() && 0 <= b < nodes@.len() && a != b implies nodes@[a] != nodes@[b] by {
                        if a == old_nodes.len() {
                            assert(nodes@[b] == old_nodes[b]);
                        } else if b == old_nodes.len() {
                            assert(nodes@[a] == old_nodes[a]);
                        } else {
                            assert(nodes@[a] == old_nodes[a] && nodes@[b] == old_nodes[b]);
                        }
                    }
                }
            },
        }
    }
    nodes
}

/// Distinct nodes below `n` that leave out one more such node number fewer
/// than `n`.
proof fn lemma_distinct_short(s: Seq<NodeIdx>, x: NodeIdx, n: int)
    requires
        s.no_duplicates(),
        forall|k: int| 0 <= k < s.len() ==> (#[trigger] s[k]).0 < n,
        x.0 < n,
        !s.contains(x),
    ensures
        s.len() < n,
{
    let t = s.push(x);
    assert(t.no_duplicates()) by {
        assert forall|a: int, b: int| 0 <= a < t.len() && 0 <= b < t.len() && a != b implies t[a] != t[b] by {
            if a == s.len() {
                assert(t[b] == s[b]);
            } else if b == s.len() {
                assert(t[a] == s[a]);
            }
        }
    }
    let ints = t.map_values(|v: NodeIdx| v.0 as int);
    assert(ints.no_duplicates()) by {
        assert forall|a: int, b: int| 0 <= a < ints.len() && 0 <= b < ints.len() && a != b implies ints[a] != ints[b] by {
            assert(t[a] != t[b]);
        }
    }
    ints.unique_seq_to_set();
    assert(ints.to_set().subset_of(vstd::set_lib::set_int_range(0, n)));
    vstd::set_lib::lemma_int_range(0, n);
    vstd::set_lib::lemma_len_subset(ints.to_set(), vstd::set_lib::set_int_range(0, n));
}

} // verus!
