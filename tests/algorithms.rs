use brood::algo::{find_longest_shortest_path, Dijkstra, Entry};
use brood::data::{Data, Link, Page};
use brood::graph::{Graph, NodeIdx};
use brood::pg::{cluster_sizes, cycle_members, find_clusters, find_forward_edges, first_viable_link, trace};
use brood::queue::MinQueue;
use brood::search::{redirect_costs, search_path};

fn graph(adj: &[&[u32]]) -> Graph {
    let mut g = Graph::new();
    for targets in adj {
        g.add_node();
        for t in *targets {
            g.add_edge(NodeIdx(*t));
        }
    }
    g
}

fn store(pages: &[(&str, bool)], adj: &[&[(u32, u8)]]) -> Data {
    let mut d = Data::new();
    for (i, (title, redirect)) in pages.iter().enumerate() {
        d.pages.push(Page { id: i as u32, title: title.to_string(), length: 0, redirect: *redirect });
        d.graph.add_node();
        for (target, flags) in adj[i] {
            d.graph.add_edge(NodeIdx(*target));
            d.links.push(Link { start: 0, len: 0, flags: *flags });
        }
    }
    d
}

#[test]
fn dijkstra_prefers_two_cheap_steps() {
    // A -> B (1), A -> C (5), B -> C (1); D unconnected
    let g = graph(&[&[1, 2], &[2], &[], &[]]);
    let costs = vec![1, 5, 1];
    let mut d = Dijkstra::new(&g);
    d.run(NodeIdx(0), Some(NodeIdx(2)), &costs);
    assert_eq!(d.cost(NodeIdx(2)), 2);
    assert_eq!(d.path(NodeIdx(2)), vec![NodeIdx(0), NodeIdx(1), NodeIdx(2)]);
    assert_eq!(d.pred(NodeIdx(2)), NodeIdx(1));
    assert_eq!(d.cost(NodeIdx(3)), u32::MAX);
    assert_eq!(d.pred(NodeIdx(3)), NodeIdx::none());
}

#[test]
fn dijkstra_full_run_skips_outdated_entries() {
    let g = graph(&[&[2, 1], &[2], &[3], &[]]);
    let costs = vec![5, 1, 1, 1];
    let mut d = Dijkstra::new(&g);
    d.run(NodeIdx(0), None, &costs);
    assert_eq!(d.cost(NodeIdx(0)), 0);
    assert_eq!(d.cost(NodeIdx(1)), 1);
    assert_eq!(d.cost(NodeIdx(2)), 2);
    assert_eq!(d.cost(NodeIdx(3)), 3);
    assert_eq!(d.path(NodeIdx(3)), vec![NodeIdx(0), NodeIdx(1), NodeIdx(2), NodeIdx(3)]);
    assert_eq!(d.path(NodeIdx(0)), vec![NodeIdx(0)]);
}

#[test]
fn dijkstra_zero_cost_cycle_terminates() {
    let g = graph(&[&[1], &[0, 2], &[]]);
    let costs = vec![0, 0, 4];
    let mut d = Dijkstra::new(&g);
    d.run(NodeIdx(0), None, &costs);
    assert_eq!(d.cost(NodeIdx(1)), 0);
    assert_eq!(d.cost(NodeIdx(2)), 4);
    assert_eq!(d.path(NodeIdx(2)), vec![NodeIdx(0), NodeIdx(1), NodeIdx(2)]);
}

#[test]
fn dijkstra_unreachable_goal_stays_unreached() {
    let g = graph(&[&[], &[0]]);
    let mut d = Dijkstra::new(&g);
    d.run(NodeIdx(0), Some(NodeIdx(1)), &[1]);
    assert_eq!(d.cost(NodeIdx(1)), u32::MAX);
    assert_eq!(d.pred(NodeIdx(1)), NodeIdx::none());
}

#[test]
fn dijkstra_start_as_goal_reaches_nothing_else() {
    let g = graph(&[&[1], &[2], &[]]);
    let mut d = Dijkstra::new(&g);
    d.run(NodeIdx(0), Some(NodeIdx(0)), &[1, 1]);
    assert_eq!(d.cost(NodeIdx(0)), 0);
    assert_eq!(d.cost(NodeIdx(1)), u32::MAX);
    assert_eq!(d.cost(NodeIdx(2)), u32::MAX);
    assert_eq!(d.path(NodeIdx(0)), vec![NodeIdx(0)]);
}

#[test]
fn entry_new_keeps_fields() {
    let e = Entry::new(3, NodeIdx(4));
    assert_eq!(e.cost, 3);
    assert_eq!(e.idx, NodeIdx(4));
}

#[test]
fn longest_shortest_path_picks_farthest_smallest_index() {
    let g = graph(&[&[2, 1], &[3], &[4], &[], &[]]);
    let costs = vec![1, 1, 1, 1];
    let mut d = Dijkstra::new(&g);
    d.run(NodeIdx(0), None, &costs);
    assert_eq!(d.farthest(), Some(NodeIdx(3)));
    let p = find_longest_shortest_path(&d, NodeIdx(0)).unwrap();
    assert_eq!(p, vec![NodeIdx(0), NodeIdx(1), NodeIdx(3)]);
}

#[test]
fn search_path_walks_through_redirects_for_free() {
    let d = store(&[("A", false), ("R", true), ("B", false), ("C", false)], &[&[(1, 0), (3, 0)], &[(2, 0)], &[], &[(2, 0)]]);
    assert_eq!(redirect_costs(&d), vec![1, 1, 0, 1]);
    let (cost, path) = search_path(&d, NodeIdx(0), NodeIdx(2)).unwrap();
    assert_eq!(cost, 1);
    assert_eq!(path, vec![NodeIdx(0), NodeIdx(1), NodeIdx(2)]);
    assert!(search_path(&d, NodeIdx(2), NodeIdx(0)).is_none());
    let (cost, path) = search_path(&d, NodeIdx(3), NodeIdx(3)).unwrap();
    assert_eq!(cost, 0);
    assert_eq!(path, vec![NodeIdx(3)]);
}

#[test]
fn first_viable_link_skips_parens_and_structure() {
    let d = store(&[("A", false), ("B", false), ("C", false)], &[&[(1, 1), (2, 2), (1, 0)], &[(2, 3)], &[]]);
    assert_eq!(first_viable_link(&d, NodeIdx(0)), Some(NodeIdx(1)));
    assert_eq!(first_viable_link(&d, NodeIdx(1)), None);
    assert_eq!(first_viable_link(&d, NodeIdx(2)), None);
    assert_eq!(find_forward_edges(&d), vec![NodeIdx(1), NodeIdx::none(), NodeIdx::none()]);
}

#[test]
fn clusters_of_cycles_and_dead_ends() {
    let n = NodeIdx::none();
    // 0 -> 1 -> 2 -> 1 (cycle {1, 2}); 3 -> 4 dead end; 5 -> 5; 6 -> 2
    let forward = vec![NodeIdx(1), NodeIdx(2), NodeIdx(1), NodeIdx(4), n, NodeIdx(5), NodeIdx(2)];
    let cluster = find_clusters(&forward);
    assert_eq!(
        cluster,
        vec![NodeIdx(1), NodeIdx(1), NodeIdx(1), NodeIdx(4), NodeIdx(4), NodeIdx(5), NodeIdx(1)]
    );
    assert_eq!(cluster_sizes(&cluster), vec![0, 4, 0, 0, 2, 1, 0]);
    assert_eq!(cycle_members(&forward, NodeIdx(1)), vec![NodeIdx(1), NodeIdx(2)]);
    assert_eq!(cycle_members(&forward, NodeIdx(5)), vec![NodeIdx(5)]);
}

#[test]
fn cycle_representative_is_smallest_member() {
    // 5 -> 3 -> 4 -> 2 -> 3; the cycle is {3, 4, 2}
    let n = NodeIdx::none();
    let forward = vec![n, n, NodeIdx(3), NodeIdx(4), NodeIdx(2), NodeIdx(3)];
    let cluster = find_clusters(&forward);
    assert_eq!(cluster, vec![NodeIdx(0), NodeIdx(1), NodeIdx(2), NodeIdx(2), NodeIdx(2), NodeIdx(2)]);
    assert_eq!(cycle_members(&forward, NodeIdx(2)), vec![NodeIdx(2), NodeIdx(3), NodeIdx(4)]);
}

#[test]
fn dead_end_is_its_own_representative() {
    let n = NodeIdx::none();
    let forward = vec![n];
    assert_eq!(find_clusters(&forward), vec![NodeIdx(0)]);
    assert_eq!(cluster_sizes(&find_clusters(&forward)), vec![1]);
    assert_eq!(find_clusters(&Vec::new()), Vec::<NodeIdx>::new());
}

#[test]
fn min_queue_pops_by_cost_then_index() {
    let mut q = MinQueue::new();
    for (c, i) in [(5, 1), (2, 9), (2, 3), (7, 0), (0, 4), (2, 3)] {
        q.push(Entry::new(c, NodeIdx(i)));
    }
    let mut out = vec![];
    while q.len() > 0 {
        let e = q.pop();
        out.push((e.cost, e.idx.0));
    }
    assert_eq!(out, vec![(0, 4), (2, 3), (2, 3), (2, 9), (5, 1), (7, 0)]);
}

#[test]
fn trace_stops_at_dead_end_or_loop() {
    let n = NodeIdx::none();
    let forward = vec![NodeIdx(1), NodeIdx(2), NodeIdx(1), n];
    assert_eq!(trace(&forward, NodeIdx(0)), vec![NodeIdx(0), NodeIdx(1), NodeIdx(2)]);
    assert_eq!(trace(&forward, NodeIdx(3)), vec![NodeIdx(3)]);
}
