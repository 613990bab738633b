use brood::data::{Data, Link, Page};
use brood::graph::NodeIdx;
use brood::info::LinkInfo;
use brood::title::{capitalize_first, php_char_to_upper, TitleNormalizer};
use brood::util::{follow_redirect, locate_title, resolve_title};

fn store(pages: &[(&str, bool)], adj: &[&[u32]]) -> Data {
    let mut d = Data::new();
    for (i, (title, redirect)) in pages.iter().enumerate() {
        d.pages.push(Page { id: i as u32, title: title.to_string(), length: 0, redirect: *redirect });
        d.graph.add_node();
        for t in adj[i] {
            d.graph.add_edge(NodeIdx(*t));
            d.links.push(Link { start: 0, len: 0, flags: 0 });
        }
    }
    d
}

#[test]
fn php_upper_case_of_plain_letters() {
    assert_eq!(php_char_to_upper('a'), "A");
    assert_eq!(php_char_to_upper('é'), "É");
    assert_eq!(php_char_to_upper('Z'), "Z");
    assert_eq!(php_char_to_upper('1'), "1");
}

#[test]
fn php_upper_case_of_iota_subscript_letters() {
    assert_eq!(php_char_to_upper('\u{1f80}'), "\u{1f88}");
    assert_eq!(php_char_to_upper('\u{1f97}'), "\u{1f9f}");
    assert_eq!(php_char_to_upper('\u{1ff3}'), "\u{1ffc}");
}

#[test]
fn php_upper_case_keeps_listed_letters() {
    assert_eq!(php_char_to_upper('ß'), "ß");
    assert_eq!(php_char_to_upper('\u{10d0}'), "\u{10d0}");
    assert_eq!(php_char_to_upper('\u{24d0}'), "\u{24d0}");
    assert_eq!(php_char_to_upper('\u{fb01}'), "\u{fb01}");
    assert_eq!(php_char_to_upper('\u{16e7f}'), "\u{16e7f}");
}

#[test]
fn capitalize_first_changes_only_the_first_character() {
    assert_eq!(capitalize_first("abc def"), "Abc def");
    assert_eq!(capitalize_first("ßx"), "ßx");
    assert_eq!(capitalize_first(""), "");
    assert_eq!(capitalize_first("x"), "X");
}

#[test]
fn normalize_cleans_whitespace_and_case() {
    let n = TitleNormalizer::new().unwrap();
    assert_eq!(n.normalize("  hello  world_ "), "Hello_world");
    assert_eq!(n.normalize("foo\u{200E}bar"), "Foobar");
    assert_eq!(n.normalize("a\u{3000}b"), "A_b");
    assert_eq!(n.normalize("___"), "");
    assert_eq!(n.normalize("Hello World"), n.normalize("hello_World"));
}

#[test]
fn locate_and_resolve_titles() {
    let n = TitleNormalizer::new().unwrap();
    let d = store(&[("Alpha beta", false), ("Short", true)], &[&[], &[0]]);
    assert_eq!(locate_title(&n, &d, "alpha_beta"), Some(NodeIdx(0)));
    assert_eq!(locate_title(&n, &d, "short"), Some(NodeIdx(1)));
    assert_eq!(resolve_title(&n, &d, "short"), Some(NodeIdx(0)));
    assert_eq!(locate_title(&n, &d, "Gamma"), None);
}

#[test]
fn follow_redirect_lists_the_chain() {
    let d = store(&[("A", true), ("B", true), ("C", false), ("D", true), ("E", true)], &[&[1], &[2], &[], &[4], &[3]]);
    assert_eq!(follow_redirect(&d, NodeIdx(0)), vec![NodeIdx(0), NodeIdx(1), NodeIdx(2)]);
    assert_eq!(follow_redirect(&d, NodeIdx(2)), vec![NodeIdx(2)]);
    assert_eq!(follow_redirect(&d, NodeIdx(3)), vec![NodeIdx(3), NodeIdx(4)]);
}

#[test]
fn link_info_flags() {
    let l = LinkInfo { start: 1, len: 2, flags: 1 };
    assert!(l.in_parens());
    assert!(!l.in_structure());
}

#[test]
fn data_with_capacity_is_empty() {
    let d = Data::with_capacity(10, 20);
    assert_eq!(d.pages.len(), 0);
    assert!(d.check_consistency());
}
