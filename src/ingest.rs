//! Two-pass construction of a graph store from a stream of raw records.
//!
//! Titles are compared by their normalized form, which the caller supplies
//! with each record. Pass one maps every normalized title to the position of
//! its first record and to the node index that record will get; pass two
//! reads the records again, keeps the first record of each title and
//! resolves link targets through the map, dropping links to unknown titles.

use vstd::prelude::*;
use vstd::hash_map::StringHashMap;

use crate::data::{Data, DataView, Link, Page, PageView, TITLE_MAX};
use vstd::utf8::encode_utf8;
use crate::edit::{adj_of, building, keep_map, lemma_keep_map_step, lemma_push_edge, lemma_push_node};
use crate::graph::{EdgeIdx, NodeIdx, U32_MAX};

verus! {

/// One outgoing link of a raw record; `target` is the normalized title.
pub struct RawLink {
    pub target: String,
    pub start: u32,
    pub len: u32,
    pub flags: u8,
}

/// One raw record. `key` is the normalized form of `title`; a redirect
/// carries the normalized title it forwards to and the byte length of the
/// title as written.
pub struct RawPage {
    pub id: u32,
    pub title: String,
    pub key: String,
    pub length: u32,
    pub links: Vec<RawLink>,
    pub redirect: Option<(String, u32)>,
}

/// Pass one over a sequence of normalized titles: for each title, the
/// position of its first occurrence and the number of distinct titles seen
/// before it.
pub open spec fn lookup_spec(ts: Seq<Seq<char>>) -> Map<Seq<char>, (u32, u32)>
    decreases ts.len(),
{
    if ts.len() == 0 {
        Map::empty()
    } else {
        let m = lookup_spec(ts.drop_last());
        if m.contains_key(ts.last()) {
            m
        } else {
            m.insert(ts.last(), ((ts.len() - 1) as u32, distinct_count(ts.drop_last()) as u32))
        }
    }
}

/// Number of distinct titles in `ts`.
pub open spec fn distinct_count(ts: Seq<Seq<char>>) -> nat
    decreases ts.len(),
{
    if ts.len() == 0 {
        0
    } else if lookup_spec(ts.drop_last()).contains_key(ts.last()) {
        distinct_count(ts.drop_last())
    } else {
        distinct_count(ts.drop_last()) + 1
    }
}

/// First occurrence wins: a title maps to the position of its first record,
/// which holds that title and is preceded by no record with it; its node
/// index counts the distinct titles before it. Every title in the sequence
/// is mapped.
pub proof fn lemma_first_occurrence(ts: Seq<Seq<char>>)
    requires
        ts.len() < U32_MAX,
    ensures
        forall|t: Seq<char>|
            #[trigger] lookup_spec(ts).contains_key(t) ==> {
                let (p, k) = lookup_spec(ts)[t];
                &&& p < ts.len()
                &&& ts[p as int] == t
                &&& forall|j: int| 0 <= j < p ==> ts[j] != t
                &&& k < distinct_count(ts)
            },
        forall|j: int| 0 <= j < ts.len() ==> #[trigger] lookup_spec(ts).contains_key(ts[j]),
        distinct_count(ts) <= ts.len(),
    decreases ts.len(),
{
    if ts.len() > 0 {
        let init = ts.drop_last();
        lemma_first_occurrence(init);
        let m = lookup_spec(init);
        assert forall|t: Seq<char>| #[trigger] lookup_spec(ts).contains_key(t) implies {
            let (p, k) = lookup_spec(ts)[t];
            &&& p < ts.len()
            &&& ts[p as int] == t
            &&& forall|j: int| 0 <= j < p ==> ts[j] != t
            &&& k < distinct_count(ts)
        } by {
            if m.contains_key(t) {
                let (p, k) = m[t];
                assert(init[p as int] == t);
                assert forall|j: int| 0 <= j < p implies ts[j] != t by {
                    assert(init[j] == ts[j]);
                }
            } else {
                assert(t == ts.last());
                assert forall|j: int| 0 <= j < ts.len() - 1 implies ts[j] != t by {
                    assert(init[j] == ts[j]);
                    assert(m.contains_key(init[j]));
                }
            }
        }
        assert forall|j: int| 0 <= j < ts.len() implies #[trigger] lookup_spec(ts).contains_key(ts[j]) by {
            if j < ts.len() - 1 {
                assert(init[j] == ts[j]);
                assert(m.contains_key(init[j]));
            }
        }
    }
}

/// The result of pass one.
pub struct TitleLookup {
    pub map: StringHashMap<(u32, u32)>,
    /// Number of distinct titles: the number of pages the store will hold.
    pub count: u32,
}

pub open spec fn keys_view(keys: Seq<String>) -> Seq<Seq<char>> {
    keys.map_values(|s: String| s@)
}

/// Pass one over the normalized titles of all records, in stream order.
pub fn compute_title_lookup(keys: &Vec<String>) -> (r: TitleLookup)
    requires
        keys@.len() < U32_MAX,
    ensures
        r.map@ == lookup_spec(keys_view(keys@)),
        r.count == distinct_count(keys_view(keys@)),
{
    let ghost ks = keys_view(keys@);
    let mut map: StringHashMap<(u32, u32)> = StringHashMap::new();
    let mut count: u32 = 0;
    let mut i: usize = 0;
    while i < keys.len()
        invariant
            ks == keys_view(keys@),
            keys@.len() < U32_MAX,
            0 <= i <= keys@.len(),
            map@ == lookup_spec(ks.subrange(0, i as int)),
            count == distinct_count(ks.subrange(0, i as int)),
        decreases keys@.len() - i,
    {
        proof {
            lemma_first_occurrence(ks.subrange(0, i as int));
            assert(ks.subrange(0, i + 1).drop_last() =~= ks.subrange(0, i as int));
            assert(ks.subrange(0, i + 1).last() == keys@[i as int]@);
        }
        let key = &keys[i];
        if !map.contains_key(key.as_str()) {
            map.insert(key.clone(), (i as u32, count));
            count = count + 1;
        }
        i = i + 1;
    }
    assert(ks.subrange(0, keys@.len() as int) =~= ks);
    TitleLookup { map, count }
}

/// Why pass two failed.
#[derive(Debug, Clone, Copy, PartialEq, Eq, Structural)]
pub enum BuildError {
    /// A record's title was not seen in pass one.
    UnknownTitle,
    /// A kept record does not get the node index pass one gave it, or
    /// records are missing at the end: the stream changed between passes.
    StreamChanged,
    /// More records or links than the store can index.
    TooLarge,
    /// The finished store breaks a structural invariant (a title too long).
    Inconsistent,
}

/// The links a record contributes before resolution: a redirect's single
/// synthetic link to its target, or else all its links.
pub open spec fn record_links(rec: &RawPage) -> Seq<(Seq<char>, Link)> {
    match rec.redirect {
        Some((t, len)) => seq![(t@, Link { start: 0, len, flags: 0 })],
        None => rec.links@.map_values(|l: RawLink| (l.target@, Link { start: l.start, len: l.len, flags: l.flags })),
    }
}

/// Resolves a link through the title map; unknown targets are dropped.
pub open spec fn resolver(m: Map<Seq<char>, (u32, u32)>) -> spec_fn((Seq<char>, Link)) -> Option<(NodeIdx, Link)> {
    |x: (Seq<char>, Link)|
        if m.contains_key(x.0) {
            Some((NodeIdx(m[x.0].1), x.1))
        } else {
            None
        }
}

/// The store can index the edges of `rec` after its current ones.
pub open spec fn record_fits(d: DataView, rec: &RawPage) -> bool {
    d.edges.len() + record_links(rec).len() < U32_MAX - 1
}

/// Pass two: keeps the first record of each title and resolves links.
pub struct Builder {
    lookup: TitleLookup,
    data: Data,
    /// Position of the next record in the stream.
    pos: u32,
    /// Normalized title of each page added so far.
    keys: Ghost<Seq<Seq<char>>>,
}

impl Builder {
    pub closed spec fn map(&self) -> Map<Seq<char>, (u32, u32)> {
        self.lookup.map@
    }

    pub closed spec fn count(&self) -> u32 {
        self.lookup.count
    }

    pub closed spec fn position(&self) -> u32 {
        self.pos
    }

    pub closed spec fn store(&self) -> DataView {
        self.data@
    }

    /// Normalized title of each page added so far.
    pub closed spec fn page_keys(&self) -> Seq<Seq<char>> {
        self.keys@
    }

    pub closed spec fn inv(&self) -> bool {
        let d = self.data@;
        &&& building(d.nodes, d.edges, d.links, self.lookup.count as int)
        &&& d.pages.len() == d.nodes.len()
        &&& d.pages.len() <= self.lookup.count
        &&& d.edges.len() < U32_MAX
        &&& self.keys@.len() == d.pages.len()
        &&& forall|k: int| 0 <= k < d.pages.len() ==> {
            &&& self.lookup.map@.contains_key(#[trigger] self.keys@[k])
            &&& self.lookup.map@[self.keys@[k]].1 == k
        }
        &&& forall|i: int|
            0 <= i < d.pages.len() && #[trigger] d.pages[i].redirect ==> d.degree(i) <= 1
        &&& forall|v: Seq<char>| #[trigger] self.lookup.map@.contains_key(v) ==> self.lookup.map@[v].1 < self.lookup.count
    }

    /// Starts pass two; every node index in `lookup` must be below its count.
    pub fn new(lookup: TitleLookup) -> (r: Builder)
        requires
            forall|v: Seq<char>| #[trigger] lookup.map@.contains_key(v) ==> lookup.map@[v].1 < lookup.count,
        ensures
            r.inv(),
            r.map() == lookup.map@,
            r.count() == lookup.count,
            r.position() == 0,
            r.store().pages.len() == 0,
    {
        Builder { lookup, data: Data::new(), pos: 0, keys: Ghost(Seq::empty()) }
    }

    /// Takes the next record of the stream. A record that is not the first
    /// of its title is skipped; a kept record becomes the next page, with
    /// one edge per link whose target title is known.
    pub fn add_record(&mut self, rec: &RawPage) -> (r: Result<(), BuildError>)
        requires
            old(self).inv(),
        ensures
            final(self).inv(),
            final(self).map() == old(self).map(),
            final(self).count() == old(self).count(),
            !old(self).map().contains_key(rec.key@) ==> r == Err::<(), BuildError>(BuildError::UnknownTitle),
            old(self).map().contains_key(rec.key@) && old(self).position() == U32_MAX ==> r == Err::<
                (),
                BuildError,
            >(BuildError::TooLarge),
            old(self).map().contains_key(rec.key@) && old(self).position() < U32_MAX && old(self).map()[rec.key@].0
                != old(self).position() ==> r is Ok && final(self).store() == old(self).store()
                && final(self).page_keys() == old(self).page_keys(),
            old(self).map().contains_key(rec.key@) && old(self).position() < U32_MAX && old(self).map()[rec.key@].0
                == old(self).position() && old(self).map()[rec.key@].1 != old(self).store().pages.len() ==> r
                == Err::<(), BuildError>(BuildError::StreamChanged),
            old(self).map().contains_key(rec.key@) && old(self).position() < U32_MAX && old(self).map()[rec.key@].0
                == old(self).position() && old(self).map()[rec.key@].1 == old(self).store().pages.len()
                ==> (r is Ok <==> record_fits(old(self).store(), rec)) && (r is Err ==> r == Err::<
                (),
                BuildError,
            >(BuildError::TooLarge)),
            r is Err ==> final(self).store() == old(self).store() && final(self).position() == old(self).position()
                && final(self).page_keys() == old(self).page_keys(),
            r is Ok ==> final(self).position() == old(self).position() + 1,
            r is Ok && old(self).map()[rec.key@].0 == old(self).position() ==> {
                let d0 = old(self).store();
                let d1 = final(self).store();
                let n = d0.pages.len() as int;
                &&& old(self).map()[rec.key@].1 == n
                &&& d1.pages == d0.pages.push(
                    PageView { id: rec.id, title: rec.title@, length: rec.length, redirect: rec.redirect is Some },
                )
                &&& d1.nodes.len() == n + 1
                &&& d1.edges.len() <= d0.edges.len() + record_links(rec).len()
                &&& final(self).page_keys() == old(self).page_keys().push(rec.key@)
                &&& forall|j: int| 0 <= j < n ==> #[trigger] adj_of(d1.nodes, d1.edges, d1.links, j) == adj_of(d0.nodes, d0.edges, d0.links, j)
                &&& adj_of(d1.nodes, d1.edges, d1.links, n) == keep_map(record_links(rec), resolver(old(self).map()))
            },
    {
        let pos = self.pos;
        let entry = match self.lookup.map.get(rec.key.as_str()) {
            Some(e) => *e,
            None => return Err(BuildError::UnknownTitle),
        };
        if pos == U32_MAX {
            return Err(BuildError::TooLarge);
        }
        if entry.0 != pos {
            self.pos = pos + 1;
            return Ok(());
        }
        if entry.1 as usize != self.data.pages.len() {
            return Err(BuildError::StreamChanged);
        }
        let ghost d0 = self.data@;
        let ghost m = self.lookup.map@;
        let ghost f = resolver(m);
        let ghost links = record_links(rec);
        let n_links: usize = match &rec.redirect {
            Some(_) => 1,
            None => rec.links.len(),
        };
        if n_links >= (U32_MAX as usize) - 1 || self.data.graph.edges.len() >= (U32_MAX as usize) - 1 - n_links {
            return Err(BuildError::TooLarge);
        }
        let title = rec.title.clone();
        self.data.pages.push(Page { id: rec.id, title, length: rec.length, redirect: rec.redirect.is_some() });
        proof {
            lemma_push_node(self.data.graph.nodes@, self.data.graph.edges@, self.data.links@);
        }
        self.data.graph.add_node();
        let ghost n = d0.pages.len() as int;
        let ghost pages_after = self.data.pages@;
        assert(links.len() == n_links);
        assert(links.subrange(0, 0) =~= Seq::<(Seq<char>, Link)>::empty());
        let mut k: usize = 0;
        while k < n_links
            invariant
                self.lookup.map@ == m,
                self.data.pages@ == pages_after,
                self.keys@ == old(self).keys@,
                self.lookup.count == old(self).lookup.count,
                self.pos == pos,
                f == resolver(m),
                links == record_links(rec),
                links.len() == n_links,
                0 <= k <= n_links,
                building(self.data.graph.nodes@, self.data.graph.edges@, self.data.links@, self.lookup.count as int),
                forall|v: Seq<char>| #[trigger] m.contains_key(v) ==> m[v].1 < self.lookup.count,
                self.data.graph.nodes@.len() == n + 1,
                self.data.graph.nodes@ == d0.nodes.push(EdgeIdx(d0.edges.len() as u32)),
                self.data.graph.edges@.len() <= d0.edges.len() + k,
                d0.edges.len() + n_links < U32_MAX - 1,
                forall|j: int|
                    0 <= j < n ==> #[trigger] adj_of(self.data.graph.nodes@, self.data.graph.edges@, self.data.links@, j)
                        == adj_of(d0.nodes, d0.edges, d0.links, j),
                adj_of(self.data.graph.nodes@, self.data.graph.edges@, self.data.links@, n) == keep_map(
                    links.subrange(0, k as int),
                    f,
                ),
            decreases n_links - k,
        {
            let (target, link) = match &rec.redirect {
                Some((t, len)) => (t, Link { start: 0, len: *len, flags: 0 }),
                None => {
                    let l = &rec.links[k];
                    (&l.target, Link { start: l.start, len: l.len, flags: l.flags })
                },
            };
            proof {
                assert(links[k as int] == (target@, link));
                lemma_keep_map_step(links, k as int, f);
            }
            match self.lookup.map.get(target.as_str()) {
                Some(e) => {
                    let t = NodeIdx(e.1);
                    proof {
                        lemma_push_edge(self.data.graph.nodes@, self.data.graph.edges@, self.data.links@, t, link);
                    }
                    self.data.graph.add_edge(t);
                    self.data.links.push(link);
                },
                None => {},
            }
            k = k + 1;
        }
        assert(links.subrange(0, n_links as int) =~= links);
        proof {
            let d1 = self.data@;
            assert(d1.pages =~= d0.pages.push(
                PageView { id: rec.id, title: rec.title@, length: rec.length, redirect: rec.redirect is Some },
            ));
            assert(adj_of(d1.nodes, d1.edges, d1.links, n).len() <= n_links) by {
                crate::edit::lemma_keep_map_len(links, f);
            }
            self.keys@ = self.keys@.push(rec.key@);
            assert forall|i: int|
                0 <= i < d1.pages.len() && #[trigger] d1.pages[i].redirect implies d1.degree(i) <= 1 by {
                if i < n {
                    assert(adj_of(d1.nodes, d1.edges, d1.links, i) == adj_of(d0.nodes, d0.edges, d0.links, i));
                }
            }
        }
        self.pos = pos + 1;
        Ok(())
    }

    /// A builder whose pages are all in, with short titles, holds a
    /// consistent store.
    proof fn lemma_consistent(&self)
        requires
            self.inv(),
            self.store().pages.len() == self.count(),
            self.count() < U32_MAX,
            forall|k: int|
                0 <= k < self.store().pages.len() ==> encode_utf8(#[trigger] self.store().pages[k].title).len()
                    <= TITLE_MAX,
        ensures
            self.store().consistent(),
    {
    }

    /// Ends pass two: the store, once every title has its page and the
    /// store passes its consistency check.
    pub fn finish(self) -> (r: Result<Data, BuildError>)
        requires
            self.inv(),
        ensures
            match r {
                Ok(d) => {
                    &&& d@ == self.store()
                    &&& d@.consistent()
                    &&& d@.pages.len() == self.count()
                    &&& forall|k: int| 0 <= k < d@.pages.len() ==> self.map()[#[trigger] self.page_keys()[k]].1 == k
                },
                Err(e) => e == BuildError::StreamChanged && self.store().pages.len() != self.count()
                    || e == BuildError::Inconsistent && self.store().pages.len() == self.count()
                    && !self.store().consistent(),
            },
    {
        if self.data.pages.len() != self.lookup.count as usize {
            return Err(BuildError::StreamChanged);
        }
        if self.data.check_consistency() {
            Ok(self.data)
        } else {
            Err(BuildError::Inconsistent)
        }
    }
}


/// The normalized titles of records, in order.
pub open spec fn rec_keys(recs: Seq<RawPage>) -> Seq<Seq<char>> {
    recs.map_values(|r: RawPage| r.key@)
}

/// How many links the records contribute before resolution.
pub open spec fn links_total(recs: Seq<RawPage>) -> int
    decreases recs.len(),
{
    if recs.len() == 0 {
        0
    } else {
        links_total(recs.drop_last()) + record_links(&recs.last()).len()
    }
}

/// The page a record becomes.
pub open spec fn page_of(rec: RawPage) -> PageView {
    PageView { id: rec.id, title: rec.title@, length: rec.length, redirect: rec.redirect is Some }
}

/// The records fit a store: positions and links can be indexed by a `u32`
/// and every title fits its length prefix.
pub open spec fn build_fits(recs: Seq<RawPage>) -> bool {
    &&& recs.len() < U32_MAX
    &&& links_total(recs) < U32_MAX - 1
    &&& forall|i: int| 0 <= i < recs.len() ==> encode_utf8(#[trigger] recs[i].title@).len() <= TITLE_MAX
}

/// The first record of a title sits where pass one puts it.
proof fn lemma_lookup_at(ts: Seq<Seq<char>>, p: int)
    requires
        ts.len() < U32_MAX,
        0 <= p < ts.len(),
        forall|j: int| 0 <= j < p ==> ts[j] != ts[p],
    ensures
        lookup_spec(ts).contains_key(ts[p]),
        lookup_spec(ts)[ts[p]] == (p as u32, distinct_count(ts.subrange(0, p)) as u32),
    decreases ts.len(),
{
    let init = ts.drop_last();
    lemma_first_occurrence(init);
    if p == ts.len() - 1 {
        assert(init =~= ts.subrange(0, p));
        if lookup_spec(init).contains_key(ts[p]) {
            let q = lookup_spec(init)[ts[p]].0;
            assert(init[q as int] == ts[p]);
            assert(ts[q as int] == ts[p]);
        }
    } else {
        assert forall|j: int| 0 <= j < p implies init[j] != init[p] by {
            assert(init[j] == ts[j]);
        }
        lemma_lookup_at(init, p);
        assert(init[p] == ts[p]);
        assert(init.subrange(0, p) =~= ts.subrange(0, p));
    }
}

/// One record more grows the number of distinct titles by one exactly when
/// its title is new.
proof fn lemma_count_step(ts: Seq<Seq<char>>, pos: int)
    requires
        ts.len() < U32_MAX,
        0 <= pos < ts.len(),
    ensures
        (exists|j: int| 0 <= j < pos && ts[j] == ts[pos]) ==> distinct_count(ts.subrange(0, pos + 1))
            == distinct_count(ts.subrange(0, pos)),
        (forall|j: int| 0 <= j < pos ==> ts[j] != ts[pos]) ==> distinct_count(ts.subrange(0, pos + 1))
            == distinct_count(ts.subrange(0, pos)) + 1,
        distinct_count(ts.subrange(0, pos + 1)) <= pos + 1,
{
    let pre = ts.subrange(0, pos);
    let cur = ts.subrange(0, pos + 1);
    assert(cur.drop_last() =~= pre);
    lemma_first_occurrence(pre);
    lemma_first_occurrence(cur);
    if exists|j: int| 0 <= j < pos && ts[j] == ts[pos] {
        let j = choose|j: int| 0 <= j < pos && ts[j] == ts[pos];
        assert(pre[j] == ts[pos]);
    }
    if lookup_spec(pre).contains_key(ts[pos]) {
        let q = lookup_spec(pre)[ts[pos]].0;
        assert(pre[q as int] == ts[pos]);
    }
}

proof fn lemma_links_total_step(recs: Seq<RawPage>, i: int)
    requires
        0 <= i < recs.len(),
    ensures
        links_total(recs.subrange(0, i + 1)) == links_total(recs.subrange(0, i)) + record_links(&recs[i]).len(),
{
    assert(recs.subrange(0, i + 1).drop_last() =~= recs.subrange(0, i));
}

proof fn lemma_links_total_mono(recs: Seq<RawPage>, i: int)
    requires
        0 <= i <= recs.len(),
    ensures
        links_total(recs.subrange(0, i)) <= links_total(recs),
    decreases recs.len() - i,
{
    if i < recs.len() {
        lemma_links_total_step(recs, i);
        lemma_links_total_mono(recs, i + 1);
    } else {
        assert(recs.subrange(0, i) =~= recs);
    }
}

proof fn lemma_count_mono(ts: Seq<Seq<char>>, a: int, b: int)
    requires
        ts.len() < U32_MAX,
        0 <= a <= b <= ts.len(),
    ensures
        distinct_count(ts.subrange(0, a)) <= distinct_count(ts.subrange(0, b)),
    decreases b - a,
{
    if a < b {
        lemma_count_mono(ts, a, b - 1);
        lemma_count_step(ts, b - 1);
    }
}

/// Both passes over records held in memory: the first record of each title
/// becomes a page, later ones are skipped. It succeeds on every list of
/// records that fits a store.
pub fn build(records: &Vec<RawPage>) -> (r: Result<Data, BuildError>)
    ensures
        build_fits(records@) ==> r is Ok,
        r is Ok ==> {
            let d = r.unwrap()@;
            let ks = rec_keys(records@);
            let m = lookup_spec(ks);
            &&& d.consistent()
            &&& d.pages.len() == distinct_count(ks)
            &&& forall|i: int|
                0 <= i < records@.len() && #[trigger] m[ks[i]].0 == i ==> d.pages[m[ks[i]].1 as int]
                    == page_of(records@[i])
        },
{
    let ghost recs = records@;
    let ghost ks = rec_keys(recs);
    let ghost fits = build_fits(recs);
    if records.len() >= U32_MAX as usize {
        return Err(BuildError::TooLarge);
    }
    let mut keys: Vec<String> = Vec::with_capacity(records.len());
    let mut i: usize = 0;
    while i < records.len()
        invariant
            0 <= i <= records@.len(),
            keys@.len() == i,
            forall|k: int| 0 <= k < i ==> (#[trigger] keys@[k])@ == records@[k].key@,
        decreases records@.len() - i,
    {
        keys.push(records[i].key.clone());
        i = i + 1;
    }
    assert(keys_view(keys@) =~= ks);
    proof {
        lemma_first_occurrence(ks);
    }
    let lookup = compute_title_lookup(&keys);
    let mut builder = Builder::new(lookup);
    let ghost m = lookup_spec(ks);
    let mut pos: usize = 0;
    while pos < records.len()
        invariant
            recs == records@,
            ks == rec_keys(recs),
            m == lookup_spec(ks),
            fits == build_fits(recs),
            recs.len() < U32_MAX,
            0 <= pos <= recs.len(),
            builder.inv(),
            builder.map() == m,
            builder.count() == distinct_count(ks),
            builder.position() == pos,
            builder.store().pages.len() == distinct_count(ks.subrange(0, pos as int)),
            builder.store().edges.len() <= links_total(recs.subrange(0, pos as int)),
            fits ==> forall|k: int|
                0 <= k < builder.store().pages.len() ==> encode_utf8(#[trigger] builder.store().pages[k].title).len()
                    <= TITLE_MAX,
            forall|i: int|
                0 <= i < pos && #[trigger] m[ks[i]].0 == i ==> builder.store().pages[m[ks[i]].1 as int] == page_of(
                    recs[i],
                ),
            forall|t: Seq<char>| #[trigger] m.contains_key(t) ==> m[t].1 < distinct_count(ks),
        decreases recs.len() - pos,
    {
        let ghost before = builder.store();
        proof {
            lemma_first_occurrence(ks);
            lemma_count_step(ks, pos as int);
            lemma_links_total_step(recs, pos as int);
            lemma_links_total_mono(recs, pos + 1);
            assert(ks[pos as int] == records@[pos as int].key@);
            if forall|j: int| 0 <= j < pos ==> ks[j] != ks[pos as int] {
                lemma_lookup_at(ks, pos as int);
            } else {
                let j = choose|j: int| 0 <= j < pos && ks[j] == ks[pos as int];
                assert(m.contains_key(ks[pos as int]));
                let q = m[ks[pos as int]].0;
                assert(q <= j) by {
                    if q > j {
                        assert(ks[j] != ks[pos as int]);
                    }
                }
            }
        }
        if let Err(e) = builder.add_record(&records[pos]) {
            return Err(e);
        }
        proof {
            let d1 = builder.store();
            assert forall|i: int|
                0 <= i < pos + 1 && #[trigger] m[ks[i]].0 == i implies d1.pages[m[ks[i]].1 as int] == page_of(
                recs[i],
            ) by {
                if i < pos {
                    lemma_first_occurrence(ks);
                    assert(m[ks[i]].1 < before.pages.len()) by {
                        assert(m.contains_key(ks[i]));
                        assert forall|j: int| 0 <= j < i implies ks[j] != ks[i] by {
                            assert(m.contains_key(ks[i]));
                        }
                        lemma_lookup_at(ks, i);
                        lemma_count_step(ks, i);
                        lemma_count_mono(ks, i + 1, pos as int);
                    }
                }
            }
        }
        pos = pos + 1;
    }
    assert(ks.subrange(0, recs.len() as int) =~= ks);
    proof {
        lemma_first_occurrence(ks);
        if fits {
            builder.lemma_consistent();
        }
    }
    let r = builder.finish();
    match r {
        Ok(d) => Ok(d),
        Err(e) => Err(e),
    }
}

} // verus!
