use brood::data::{Data, Link, Page};
use brood::graph::{EdgeIdx, Graph, NodeIdx};
use brood::store::{read_adjacency_list, read_page, write_adjacency_list, ReadError};
use brood::util::fmt_page;

fn store(pages: &[(&str, bool)], adj: &[&[(u32, u8)]]) -> Data {
    let mut d = Data::new();
    for (i, (title, redirect)) in pages.iter().enumerate() {
        d.pages.push(Page { id: 10 + i as u32, title: title.to_string(), length: 100 * i as u32, redirect: *redirect });
        d.graph.add_node();
        for (target, flags) in adj[i] {
            d.graph.add_edge(NodeIdx(*target));
            d.links.push(Link { start: 3, len: 7, flags: *flags });
        }
    }
    d
}

fn same(a: &Data, b: &Data) -> bool {
    a.pages.len() == b.pages.len()
        && a.pages.iter().zip(&b.pages).all(|(x, y)| {
            x.id == y.id && x.title == y.title && x.length == y.length && x.redirect == y.redirect
        })
        && a.links == b.links
        && a.graph.nodes == b.graph.nodes
        && a.graph.edges == b.graph.edges
}

#[test]
fn add_node_and_edge_build_offsets() {
    let mut g = Graph::new();
    g.add_node();
    g.add_edge(NodeIdx(1));
    g.add_edge(NodeIdx(0));
    g.add_node();
    g.add_node();
    g.add_edge(NodeIdx(0));
    assert_eq!(g.nodes, vec![EdgeIdx(0), EdgeIdx(2), EdgeIdx(2)]);
    assert_eq!(g.edges, vec![NodeIdx(1), NodeIdx(0), NodeIdx(0)]);
    assert!(g.check_consistency());
    assert_eq!(g.edge_range(NodeIdx(0)), 0..2);
    assert_eq!(g.edge_range(NodeIdx(1)), 2..2);
    assert_eq!(g.edge_range(NodeIdx(2)), 2..3);
    assert_eq!(g.edge_slice(NodeIdx(0)), &[NodeIdx(1), NodeIdx(0)]);
    assert_eq!(g.edge_start(NodeIdx(3)), EdgeIdx(3));
    assert_eq!(g.nodes(), vec![NodeIdx(0), NodeIdx(1), NodeIdx(2)]);
    assert_eq!(
        g.edges(),
        vec![(NodeIdx(0), NodeIdx(1)), (NodeIdx(0), NodeIdx(0)), (NodeIdx(2), NodeIdx(0))]
    );
    assert_eq!(g.edges_for(NodeIdx(2)), vec![(EdgeIdx(2), NodeIdx(0))]);
}

#[test]
fn empty_graph_is_consistent() {
    assert!(Graph::new().check_consistency());
    let g = Graph { nodes: vec![], edges: vec![NodeIdx(0)] };
    assert!(!g.check_consistency());
}

#[test]
fn graph_consistency_rejects_bad_offsets_and_targets() {
    let g = Graph { nodes: vec![EdgeIdx(1)], edges: vec![NodeIdx(0)] };
    assert!(!g.check_consistency());
    let g = Graph { nodes: vec![EdgeIdx(0), EdgeIdx(2), EdgeIdx(1)], edges: vec![NodeIdx(0), NodeIdx(0)] };
    assert!(!g.check_consistency());
    let g = Graph { nodes: vec![EdgeIdx(0)], edges: vec![NodeIdx(1)] };
    assert!(!g.check_consistency());
}

#[test]
fn node_index_helpers() {
    assert_eq!(NodeIdx::new(7), NodeIdx(7));
    assert_eq!(NodeIdx(7).usize(), 7);
    assert!(NodeIdx::none().is_none());
    assert_eq!(NodeIdx::none(), NodeIdx(u32::MAX));
    assert_eq!(EdgeIdx::new(3).usize(), 3);
}

#[test]
fn link_flags() {
    let l = Link { start: 0, len: 0, flags: 0b11 };
    assert!(l.in_parens() && l.in_structure());
    let l = Link { start: 0, len: 0, flags: 0b10 };
    assert!(!l.in_parens() && l.in_structure());
}

#[test]
fn data_consistency_checks_redirect_fan_out() {
    let d = store(&[("A", true), ("B", false), ("C", false)], &[&[(1, 0), (2, 0)], &[], &[]]);
    assert!(!d.check_consistency());
    let d = store(&[("A", true), ("B", false)], &[&[(1, 0)], &[]]);
    assert!(d.check_consistency());
    assert_eq!(d.redirect_target(NodeIdx(0)), Some(NodeIdx(1)));
    assert_eq!(d.redirect_target(NodeIdx(1)), None);
}

#[test]
fn data_consistency_checks_title_length() {
    let long = "x".repeat(256);
    let d = store(&[(long.as_str(), false)], &[&[]]);
    assert!(!d.check_consistency());
    let ok = "x".repeat(255);
    let d = store(&[(ok.as_str(), false)], &[&[]]);
    assert!(d.check_consistency());
}

#[test]
fn encoding_of_one_page_is_exact() {
    let d = store(&[("A", true)], &[&[]]);
    let bytes = write_adjacency_list(&d);
    assert_eq!(
        bytes,
        vec![1, 0, 0, 0, 0, 0, 0, 0, 10, 0, 0, 0, 0, 0, 0, 0, 1, 1, 0, b'A', 0, 0, 0, 0]
    );
}

#[test]
fn round_trip_keeps_the_store() {
    let d = store(
        &[("Alpha", false), ("Béta", true), ("Gamma", false)],
        &[&[(1, 1), (2, 2)], &[(2, 0)], &[(0, 3)]],
    );
    assert!(d.check_consistency());
    let bytes = write_adjacency_list(&d);
    let back = read_adjacency_list(&bytes).unwrap();
    assert!(same(&d, &back));
    assert_eq!(back.pages[1].title, "Béta");
}

#[test]
fn round_trip_of_empty_store() {
    let d = Data::new();
    let bytes = write_adjacency_list(&d);
    assert_eq!(bytes, vec![0; 8]);
    let back = read_adjacency_list(&bytes).unwrap();
    assert!(same(&d, &back));
}

#[test]
fn decoding_ignores_trailing_bytes() {
    let d = store(&[("A", false), ("B", false)], &[&[(1, 0)], &[(0, 0)]]);
    let mut bytes = write_adjacency_list(&d);
    bytes.extend_from_slice(&[9, 9, 9]);
    assert!(same(&d, &read_adjacency_list(&bytes).unwrap()));
}

#[test]
fn truncated_stream_is_malformed() {
    let d = store(&[("A", false), ("B", false)], &[&[(1, 0)], &[(0, 0)]]);
    let bytes = write_adjacency_list(&d);
    for cut in 0..bytes.len() {
        assert_eq!(read_adjacency_list(&bytes[..cut]).err(), Some(ReadError::Malformed));
    }
}

#[test]
fn header_count_larger_than_stream_is_malformed() {
    let bytes = vec![0xff, 0xff, 0xff, 0xff, 0, 0, 0, 0];
    assert_eq!(read_adjacency_list(&bytes).err(), Some(ReadError::Malformed));
}

#[test]
fn invalid_utf8_title_is_malformed() {
    let d = store(&[("A", false)], &[&[]]);
    let mut bytes = write_adjacency_list(&d);
    bytes[19] = 0xff;
    assert_eq!(read_adjacency_list(&bytes).err(), Some(ReadError::Malformed));
}

#[test]
fn dangling_edge_is_inconsistent() {
    let d = store(&[("A", false)], &[&[(5, 0)]]);
    let bytes = write_adjacency_list(&d);
    assert_eq!(read_adjacency_list(&bytes).err(), Some(ReadError::Inconsistent));
}

#[test]
fn read_page_reads_one_record() {
    let d = store(&[("Hi", true)], &[&[]]);
    let bytes = write_adjacency_list(&d);
    let (page, next) = read_page(&bytes, 8).unwrap();
    assert_eq!(page.id, 10);
    assert_eq!(page.title, "Hi");
    assert!(page.redirect);
    assert_eq!(next, 8 + 11 + 2);
    assert!(read_page(&bytes, 20).is_none());
}

#[test]
fn fmt_page_marks_redirects() {
    let p = Page { id: 1, title: "Title".to_string(), length: 0, redirect: true };
    assert_eq!(fmt_page(&p), "v Title");
    let p = Page { id: 1, title: "Title".to_string(), length: 0, redirect: false };
    assert_eq!(fmt_page(&p), "- Title");
}

#[test]
fn push_page_and_link_build_a_store() {
    let mut d = Data::new();
    d.push_page(Page { id: 1, title: "A".to_string(), length: 5, redirect: true });
    d.push_link(NodeIdx(1), Link { start: 2, len: 3, flags: 1 });
    d.push_page(Page { id: 2, title: "B".to_string(), length: 6, redirect: false });
    assert!(d.check_consistency());
    assert_eq!(d.page(NodeIdx(1)).title, "B");
    assert_eq!(d.link(EdgeIdx(0)), Link { start: 2, len: 3, flags: 1 });
    assert_eq!(d.link_range(NodeIdx(0)), 0..1);
    assert_eq!(d.link_range(NodeIdx(1)), 1..1);
    assert_eq!(d.link_redirect(NodeIdx(0)), Some(EdgeIdx(0)));
    assert_eq!(d.link_redirect(NodeIdx(1)), None);
}
