use brood::graph::NodeIdx;
use brood::ingest::{build, compute_title_lookup, BuildError, Builder, RawLink, RawPage};

fn link(target: &str, start: u32) -> RawLink {
    RawLink { target: target.to_string(), start, len: 4, flags: 0 }
}

fn record(id: u32, title: &str, key: &str, links: Vec<RawLink>, redirect: Option<(&str, u32)>) -> RawPage {
    RawPage {
        id,
        title: title.to_string(),
        key: key.to_string(),
        length: 1000 + id,
        links,
        redirect: redirect.map(|(t, l)| (t.to_string(), l)),
    }
}

fn records() -> Vec<RawPage> {
    vec![
        record(1, "Foo", "Foo", vec![link("Bar", 5)], None),
        record(2, "Bar", "Bar", vec![link("Foo", 1), link("Nope", 2), link("Foo", 3)], None),
        record(3, "foo", "Foo", vec![link("Bar", 9)], None),
        record(4, "Baz", "Baz", vec![link("Bar", 1)], Some(("Foo", 3))),
    ]
}

#[test]
fn first_occurrence_of_a_title_wins() {
    let recs = records();
    let keys: Vec<String> = recs.iter().map(|r| r.key.clone()).collect();
    let lookup = compute_title_lookup(&keys);
    assert_eq!(lookup.count, 3);
    assert_eq!(lookup.map.get("Foo"), Some(&(0, 0)));
    assert_eq!(lookup.map.get("Bar"), Some(&(1, 1)));
    assert_eq!(lookup.map.get("Baz"), Some(&(3, 2)));

    let mut builder = Builder::new(lookup);
    for r in &recs {
        assert_eq!(builder.add_record(r), Ok(()));
    }
    let data = builder.finish().unwrap();
    assert_eq!(data.pages.len(), 3);
    assert_eq!(data.pages[0].title, "Foo");
    assert_eq!(data.pages[0].id, 1);
    assert_eq!(data.pages[0].length, 1001);
    assert_eq!(data.pages[1].title, "Bar");
    assert_eq!(data.pages[2].title, "Baz");
    assert!(data.pages[2].redirect);
    assert!(!data.pages[0].redirect);
    // links to the duplicate's title resolve to the surviving page; unknown targets are dropped
    assert_eq!(data.graph.edge_slice(NodeIdx(0)), &[NodeIdx(1)]);
    assert_eq!(data.graph.edge_slice(NodeIdx(1)), &[NodeIdx(0), NodeIdx(0)]);
    assert_eq!(data.links[1].start, 1);
    assert_eq!(data.links[2].start, 3);
    // a redirect keeps only its synthetic link
    assert_eq!(data.graph.edge_slice(NodeIdx(2)), &[NodeIdx(0)]);
    assert_eq!(data.links[3].start, 0);
    assert_eq!(data.links[3].len, 3);
    assert_eq!(data.links[3].flags, 0);
    assert!(data.check_consistency());
}

#[test]
fn unknown_record_title_is_an_error() {
    let keys = vec!["A".to_string()];
    let mut builder = Builder::new(compute_title_lookup(&keys));
    let r = record(1, "B", "B", vec![], None);
    assert_eq!(builder.add_record(&r), Err(BuildError::UnknownTitle));
}

#[test]
fn missing_records_are_reported() {
    let keys = vec!["A".to_string(), "B".to_string()];
    let mut builder = Builder::new(compute_title_lookup(&keys));
    assert_eq!(builder.add_record(&record(1, "A", "A", vec![], None)), Ok(()));
    assert_eq!(builder.finish().err(), Some(BuildError::StreamChanged));
}

#[test]
fn reordered_stream_is_reported() {
    let keys = vec!["A".to_string(), "B".to_string()];
    let mut builder = Builder::new(compute_title_lookup(&keys));
    assert_eq!(builder.add_record(&record(1, "B", "B", vec![], None)), Ok(()));
    assert_eq!(builder.add_record(&record(1, "B", "B", vec![], None)), Err(BuildError::StreamChanged));
}

#[test]
fn overlong_title_makes_the_store_inconsistent() {
    let long = "t".repeat(300);
    let keys = vec![long.clone()];
    let mut builder = Builder::new(compute_title_lookup(&keys));
    assert_eq!(builder.add_record(&record(1, &long, &long, vec![], None)), Ok(()));
    assert_eq!(builder.finish().err(), Some(BuildError::Inconsistent));
}

#[test]
fn empty_stream_builds_empty_store() {
    let lookup = compute_title_lookup(&Vec::new());
    assert_eq!(lookup.count, 0);
    let data = Builder::new(lookup).finish().unwrap();
    assert_eq!(data.pages.len(), 0);
    assert!(data.check_consistency());
}

#[test]
fn build_keeps_first_record_of_each_title() {
    let data = build(&records()).unwrap();
    assert_eq!(data.pages.len(), 3);
    assert_eq!(data.pages[0].id, 1);
    assert_eq!(data.pages[0].title, "Foo");
    assert_eq!(data.graph.edge_slice(NodeIdx(1)), &[NodeIdx(0), NodeIdx(0)]);
    assert_eq!(data.graph.edge_slice(NodeIdx(2)), &[NodeIdx(0)]);
    assert!(data.check_consistency());
}

#[test]
fn build_of_no_records_is_empty() {
    let data = build(&Vec::new()).unwrap();
    assert_eq!(data.pages.len(), 0);
}

#[test]
fn build_rejects_overlong_title() {
    let long = "t".repeat(300);
    let recs = vec![record(1, &long, &long, vec![], None)];
    assert_eq!(build(&recs).err(), Some(BuildError::Inconsistent));
}

#[test]
fn skipped_duplicate_leaves_store_unchanged() {
    let keys = vec!["A".to_string(), "A".to_string()];
    let mut builder = Builder::new(compute_title_lookup(&keys));
    assert_eq!(builder.add_record(&record(1, "A", "A", vec![], None)), Ok(()));
    assert_eq!(builder.add_record(&record(2, "a", "A", vec![link("A", 0)], None)), Ok(()));
    let data = builder.finish().unwrap();
    assert_eq!(data.pages.len(), 1);
    assert_eq!(data.pages[0].id, 1);
    assert_eq!(data.links.len(), 0);
}
