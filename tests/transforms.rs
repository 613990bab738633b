use brood::data::{Data, Link, Page};
use brood::edit::{invert, resolve_redirects, retain_edges};
use brood::graph::NodeIdx;
use brood::util;

fn store(pages: &[(&str, bool)], adj: &[&[(u32, u8)]]) -> Data {
    let mut d = Data::new();
    for (i, (title, redirect)) in pages.iter().enumerate() {
        d.pages.push(Page { id: i as u32, title: title.to_string(), length: 0, redirect: *redirect });
        d.graph.add_node();
        for (target, flags) in adj[i] {
            d.graph.add_edge(NodeIdx(*target));
            d.links.push(Link { start: i as u32, len: *target, flags: *flags });
        }
    }
    d
}

fn targets(d: &Data, node: u32) -> Vec<u32> {
    d.graph.edge_slice(NodeIdx(node)).iter().map(|n| n.0).collect()
}

#[test]
fn retain_edges_filters_by_flags() {
    let mut d = store(&[("A", false), ("B", false), ("C", false)], &[&[(1, 0), (2, 1), (0, 2)], &[(2, 3)], &[]]);
    retain_edges(&mut d, Some(false), None);
    assert_eq!(d.pages.len(), 3);
    assert_eq!(targets(&d, 0), vec![1, 0]);
    assert_eq!(targets(&d, 1), Vec::<u32>::new());
    assert_eq!(d.links.iter().map(|l| l.flags).collect::<Vec<_>>(), vec![0, 2]);
    assert!(d.check_consistency());
}

#[test]
fn retain_edges_with_both_filters() {
    let mut d = store(&[("A", false), ("B", false)], &[&[(1, 0), (1, 1), (1, 2), (1, 3)], &[]]);
    retain_edges(&mut d, Some(false), Some(false));
    assert_eq!(targets(&d, 0), vec![1]);
    let mut d = store(&[("A", false), ("B", false)], &[&[(1, 0), (1, 1), (1, 2), (1, 3)], &[]]);
    retain_edges(&mut d, None, None);
    assert_eq!(targets(&d, 0), vec![1, 1, 1, 1]);
}

#[test]
fn redirect_chain_resolves_to_article() {
    let d = store(&[("A", true), ("B", true), ("C", false)], &[&[(1, 0)], &[(2, 0)], &[]]);
    assert_eq!(util::resolve_redirects(&d, NodeIdx(0)), Some(NodeIdx(2)));
    assert_eq!(util::resolve_redirects(&d, NodeIdx(2)), Some(NodeIdx(2)));
}

#[test]
fn redirect_cycle_is_reported() {
    let d = store(&[("A", true), ("B", true), ("C", false)], &[&[(1, 0)], &[(0, 0)], &[(0, 0)]]);
    assert_eq!(util::resolve_redirects(&d, NodeIdx(0)), None);
    assert_eq!(util::resolve_redirects(&d, NodeIdx(1)), None);
}

#[test]
fn redirect_self_loop_is_reported() {
    let d = store(&[("A", true)], &[&[(0, 0)]]);
    assert_eq!(util::resolve_redirects(&d, NodeIdx(0)), None);
}

#[test]
fn dangling_redirect_ends_at_itself() {
    let d = store(&[("A", true)], &[&[]]);
    assert_eq!(util::resolve_redirects(&d, NodeIdx(0)), Some(NodeIdx(0)));
}

#[test]
fn resolve_redirects_rewires_edges() {
    // 0 -> 1 (redirect) -> 2 (redirect) -> 3; 4 <-> 5 redirect cycle; 6 dangling redirect
    let mut d = store(
        &[("A", false), ("R1", true), ("R2", true), ("B", false), ("C1", true), ("C2", true), ("D", true)],
        &[&[(1, 0), (3, 1), (4, 2), (6, 3)], &[(2, 0)], &[(3, 0)], &[(0, 0)], &[(5, 0)], &[(4, 0)], &[]],
    );
    resolve_redirects(&mut d);
    assert_eq!(d.pages.len(), 7);
    assert_eq!(targets(&d, 0), vec![3, 3]);
    assert_eq!(d.links[0].flags, 0);
    assert_eq!(d.links[1].flags, 1);
    assert_eq!(targets(&d, 1), vec![3]);
    assert_eq!(targets(&d, 2), vec![3]);
    assert_eq!(targets(&d, 3), vec![0]);
    assert_eq!(targets(&d, 4), Vec::<u32>::new());
    assert_eq!(targets(&d, 5), Vec::<u32>::new());
    assert!(d.check_consistency());
    for t in &d.graph.edges {
        assert!(!d.pages[t.usize()].redirect);
    }
}

#[test]
fn invert_reverses_edges_in_edge_order() {
    let mut d = store(&[("A", false), ("B", false), ("C", false)], &[&[(1, 0), (2, 1)], &[(2, 2)], &[(2, 3)]]);
    invert(&mut d);
    assert_eq!(targets(&d, 0), Vec::<u32>::new());
    assert_eq!(targets(&d, 1), vec![0]);
    assert_eq!(targets(&d, 2), vec![0, 1, 2]);
    assert_eq!(d.links.iter().map(|l| l.flags).collect::<Vec<_>>(), vec![0, 1, 2, 3]);
    assert!(d.graph.check_consistency());
}

#[test]
fn invert_twice_restores_adjacency() {
    let original = store(&[("A", false), ("B", false), ("C", false)], &[&[(2, 0), (1, 0)], &[(0, 0)], &[(1, 0), (0, 0)]]);
    let mut d = store(&[("A", false), ("B", false), ("C", false)], &[&[(2, 0), (1, 0)], &[(0, 0)], &[(1, 0), (0, 0)]]);
    invert(&mut d);
    invert(&mut d);
    for v in 0..3 {
        let mut a = targets(&d, v);
        let mut b = targets(&original, v);
        a.sort();
        b.sort();
        assert_eq!(a, b);
    }
}

#[test]
fn invert_can_give_a_redirect_several_edges() {
    let mut d = store(&[("A", false), ("B", false), ("R", true)], &[&[(2, 0)], &[(2, 0)], &[]]);
    assert!(d.check_consistency());
    invert(&mut d);
    assert_eq!(targets(&d, 2), vec![0, 1]);
    assert!(!d.check_consistency());
    assert!(d.graph.check_consistency());
}

#[test]
fn empty_store_transforms() {
    let mut d = Data::new();
    retain_edges(&mut d, Some(true), Some(true));
    resolve_redirects(&mut d);
    invert(&mut d);
    assert!(d.check_consistency());
    assert_eq!(d.pages.len(), 0);
}
