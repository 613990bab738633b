//! The graph store: pages, links and the CSR topology, kept in parallel
//! arrays, with its consistency check.

use vstd::prelude::*;
use vstd::string::*;
use vstd::utf8::*;

use crate::graph::{csr_start, csr_wf, EdgeIdx, Graph, NodeIdx, U32_MAX};

verus! {

/// Longest title, in UTF-8 bytes, that a consistent store holds.
pub const TITLE_MAX: usize = 255;

/// Flag bit: the link occurs inside parenthetical text.
pub const FLAG_IN_PARENS: u8 = 1;

/// Flag bit: the link occurs inside an infobox or other structural markup.
pub const FLAG_IN_STRUCTURE: u8 = 2;

/// One article (or redirect) of the corpus.
pub struct Page {
    pub id: u32,
    pub title: String,
    pub length: u32,
    pub redirect: bool,
}

/// What a page holds, with its title as characters.
pub struct PageView {
    pub id: u32,
    pub title: Seq<char>,
    pub length: u32,
    pub redirect: bool,
}

impl View for Page {
    type V = PageView;

    open spec fn view(&self) -> PageView {
        PageView { id: self.id, title: self.title@, length: self.length, redirect: self.redirect }
    }
}

/// Where a link occurs in its source article, and in what context.
#[derive(Debug, Clone, Copy, PartialEq, Eq, Structural)]
pub struct Link {
    pub start: u32,
    pub len: u32,
    pub flags: u8,
}

pub open spec fn flag_set(flags: u8, bit: u8) -> bool {
    flags & bit != 0
}

impl Link {
    pub fn in_parens(self) -> (r: bool)
        ensures
            r == flag_set(self.flags, FLAG_IN_PARENS),
    {
        self.flags & FLAG_IN_PARENS != 0
    }

    pub fn in_structure(self) -> (r: bool)
        ensures
            r == flag_set(self.flags, FLAG_IN_STRUCTURE),
    {
        self.flags & FLAG_IN_STRUCTURE != 0
    }
}

/// Pages, links and topology; page `i` is node `i`, link `j` is edge `j`.
pub struct Data {
    pub pages: Vec<Page>,
    pub links: Vec<Link>,
    pub graph: Graph,
}

/// The contents of a store as mathematical sequences.
pub struct DataView {
    pub pages: Seq<PageView>,
    pub links: Seq<Link>,
    pub nodes: Seq<EdgeIdx>,
    pub edges: Seq<NodeIdx>,
}

pub open spec fn pages_view(pages: Seq<Page>) -> Seq<PageView> {
    pages.map_values(|p: Page| p@)
}

impl View for Data {
    type V = DataView;

    open spec fn view(&self) -> DataView {
        DataView {
            pages: pages_view(self.pages@),
            links: self.links@,
            nodes: self.graph.nodes@,
            edges: self.graph.edges@,
        }
    }
}

impl DataView {
    pub open spec fn start(self, i: int) -> int {
        csr_start(self.nodes, self.edges.len() as int, i)
    }

    /// Number of edges that leave node `i`.
    pub open spec fn degree(self, i: int) -> int {
        self.start(i + 1) - self.start(i)
    }

    /// The layout invariants: a well-formed graph, one page per node, one
    /// link per edge, titles that fit their length prefix.
    pub open spec fn well_formed(self) -> bool {
        &&& csr_wf(self.nodes, self.edges)
        &&& self.pages.len() == self.nodes.len()
        &&& self.links.len() == self.edges.len()
        &&& forall|i: int| 0 <= i < self.pages.len() ==> encode_utf8(#[trigger] self.pages[i].title).len() <= TITLE_MAX
    }

    /// At most one edge leaves each redirect.
    pub open spec fn redirects_ok(self) -> bool {
        forall|i: int| 0 <= i < self.pages.len() && #[trigger] self.pages[i].redirect ==> self.degree(i) <= 1
    }

    /// All structural invariants of a store.
    pub open spec fn consistent(self) -> bool {
        self.well_formed() && self.redirects_ok()
    }
}

impl Data {
    pub fn new() -> (r: Data)
        ensures
            r.pages@.len() == 0,
            r.links@.len() == 0,
            r.graph.nodes@.len() == 0,
            r.graph.edges@.len() == 0,
    {
        Data { pages: Vec::new(), links: Vec::new(), graph: Graph::new() }
    }

    pub fn with_capacity(pages: usize, links: usize) -> (r: Data)
        ensures
            r.pages@.len() == 0,
            r.links@.len() == 0,
            r.graph.nodes@.len() == 0,
            r.graph.edges@.len() == 0,
    {
        Data {
            pages: Vec::with_capacity(pages),
            links: Vec::with_capacity(links),
            graph: Graph::with_capacity(pages, links),
        }
    }

    pub open spec fn wf(&self) -> bool {
        self@.well_formed()
    }

    /// Checks every structural invariant of the store.
    pub fn check_consistency(&self) -> (r: bool)
        ensures
            r == self@.consistent(),
    {
        if !self.graph.check_consistency() {
            return false;
        }
        if self.pages.len() != self.graph.nodes.len() || self.links.len() != self.graph.edges.len() {
            return false;
        }
        let n = self.pages.len();
        let mut i: usize = 0;
        while i < n
            invariant
                0 <= i <= n,
                n == self.pages@.len(),
                self.graph.wf(),
                self.pages@.len() == self.graph.nodes@.len(),
                self.links@.len() == self.graph.edges@.len(),
                forall|k: int|
                    0 <= k < i && #[trigger] self@.pages[k].redirect ==> self@.degree(k) <= 1,
                forall|k: int| 0 <= k < i ==> encode_utf8(#[trigger] self@.pages[k].title).len() <= TITLE_MAX,
            decreases n - i,
        {
            let page = &self.pages[i];
            assert(self@.pages[i as int] == page@);
            let title_len = page.title.as_str().as_bytes().len();
            if title_len > TITLE_MAX {
                assert(encode_utf8(self@.pages[i as int].title).len() > TITLE_MAX);
                return false;
            }
            if page.redirect {
                let range = self.graph.edge_range(NodeIdx::new(i));
                if range.end - range.start > 1 {
                    assert(self@.pages[i as int].redirect && self@.degree(i as int) > 1);
                    return false;
                }
            }
            i = i + 1;
        }
        true
    }

    /// The page of `node`.
    pub fn page(&self, node: NodeIdx) -> (r: &Page)
        requires
            node.0 < self.pages@.len(),
        ensures
            *r == self.pages@[node.0 as int],
    {
        &self.pages[node.usize()]
    }

    /// The link of `edge`.
    pub fn link(&self, edge: EdgeIdx) -> (r: Link)
        requires
            edge.0 < self.links@.len(),
        ensures
            r == self.links@[edge.0 as int],
    {
        self.links[edge.usize()]
    }

    /// The indices of the links (edges) that leave `node`.
    pub fn link_range(&self, node: NodeIdx) -> (r: std::ops::Range<usize>)
        requires
            self.wf(),
            node.0 < self.pages@.len(),
        ensures
            r.start == self@.start(node.0 as int),
            r.end == self@.start(node.0 + 1),
            r.start <= r.end <= self@.links.len(),
    {
        self.graph.edge_range(node)
    }

    /// The first link of `node`, the one a redirect forwards through.
    pub fn link_redirect(&self, node: NodeIdx) -> (r: Option<EdgeIdx>)
        requires
            self.wf(),
            node.0 < self.pages@.len(),
        ensures
            r == (if self@.degree(node.0 as int) > 0 {
                Some(EdgeIdx(self@.start(node.0 as int) as u32))
            } else {
                None
            }),
    {
        let range = self.graph.edge_range(node);
        if range.start < range.end {
            Some(EdgeIdx::new(range.start))
        } else {
            None
        }
    }

    /// Appends a page as a new node; links pushed after it leave it.
    pub fn push_page(&mut self, page: Page)
        requires
            old(self).links@.len() == old(self).graph.edges@.len(),
            old(self).graph.edges@.len() <= U32_MAX,
        ensures
            final(self).pages@ == old(self).pages@.push(page),
            final(self).graph.nodes@ == old(self).graph.nodes@.push(EdgeIdx(old(self).graph.edges@.len() as u32)),
            final(self).graph.edges@ == old(self).graph.edges@,
            final(self).links@ == old(self).links@,
    {
        self.graph.add_node();
        self.pages.push(page);
    }

    /// Appends a link to `to` to the most recently pushed page.
    pub fn push_link(&mut self, to: NodeIdx, link: Link)
        ensures
            final(self).pages@ == old(self).pages@,
            final(self).graph.nodes@ == old(self).graph.nodes@,
            final(self).graph.edges@ == old(self).graph.edges@.push(to),
            final(self).links@ == old(self).links@.push(link),
    {
        self.graph.add_edge(to);
        self.links.push(link);
    }

    /// The page a redirect forwards to: the target of its single edge.
    pub fn redirect_target(&self, node: NodeIdx) -> (r: Option<NodeIdx>)
        requires
            self.wf(),
            node.0 < self.pages@.len(),
        ensures
            r == redirect_of(self@, node.0 as int),
    {
        if !self.pages[node.usize()].redirect {
            return None;
        }
        let range = self.graph.edge_range(node);
        if range.start < range.end {
            Some(self.graph.edges[range.start])
        } else {
            None
        }
    }
}

/// Where a page forwards to: for a redirect with an edge, that edge's target.
pub open spec fn redirect_of(d: DataView, i: int) -> Option<NodeIdx> {
    if d.pages[i].redirect && d.degree(i) > 0 {
        Some(d.edges[d.start(i)])
    } else {
        None
    }
}

} // verus!
