//! Binary codec of the graph store.
//!
//! Little-endian layout: `page_count: u32`, `link_count: u32`, then each page
//! as `(id: u32, length: u32, redirect: u8, title_len: u16, title bytes)`,
//! each link as `(start: u32, len: u32, flags: u8)`, then the node offsets and
//! the edge targets as `u32` each.

use vstd::prelude::*;
use vstd::bytes::*;
use vstd::slice::*;
use vstd::string::*;
use vstd::utf8::*;

use crate::data::{pages_view, Data, DataView, Link, Page, PageView};
use crate::graph::{EdgeIdx, Graph, NodeIdx, U32_MAX};

verus! {

broadcast use {encode_utf8_valid_utf8, encode_utf8_decode_utf8};

/// Largest title, in bytes, that the length prefix can describe.
pub const TITLE_LEN_MAX: usize = 0xFFFF;

/// Why a byte stream is not a graph store.
#[derive(Debug, Clone, Copy, PartialEq, Eq, Structural)]
pub enum ReadError {
    /// The stream ends early, or a title is not valid UTF-8.
    Malformed,
    /// The stream decodes, but the store breaks a structural invariant.
    Inconsistent,
}

// ----- encoding -----

pub open spec fn u16_le(x: u16) -> Seq<u8> {
    spec_u16_to_le_bytes(x)
}

pub open spec fn u32_le(x: u32) -> Seq<u8> {
    spec_u32_to_le_bytes(x)
}

pub open spec fn page_bytes(p: PageView) -> Seq<u8> {
    u32_le(p.id) + u32_le(p.length) + seq![if p.redirect { 1u8 } else { 0u8 }] + u16_le(
        encode_utf8(p.title).len() as u16,
    ) + encode_utf8(p.title)
}

pub open spec fn link_bytes(l: Link) -> Seq<u8> {
    u32_le(l.start) + u32_le(l.len) + seq![l.flags]
}

pub open spec fn page_enc() -> spec_fn(PageView) -> Seq<u8> {
    |p: PageView| page_bytes(p)
}

pub open spec fn link_enc() -> spec_fn(Link) -> Seq<u8> {
    |l: Link| link_bytes(l)
}

pub open spec fn offset_enc() -> spec_fn(EdgeIdx) -> Seq<u8> {
    |e: EdgeIdx| u32_le(e.0)
}

pub open spec fn target_enc() -> spec_fn(NodeIdx) -> Seq<u8> {
    |n: NodeIdx| u32_le(n.0)
}

/// The encodings of `xs`, one after the other.
pub open spec fn encode_many<T>(xs: Seq<T>, enc: spec_fn(T) -> Seq<u8>) -> Seq<u8>
    decreases xs.len(),
{
    if xs.len() == 0 {
        seq![]
    } else {
        encode_many(xs.drop_last(), enc) + enc(xs.last())
    }
}

/// The byte stream of a store.
pub open spec fn data_bytes(d: DataView) -> Seq<u8> {
    u32_le(d.pages.len() as u32) + u32_le(d.links.len() as u32) + encode_many(d.pages, page_enc())
        + encode_many(d.links, link_enc()) + encode_many(d.nodes, offset_enc()) + encode_many(
        d.edges,
        target_enc(),
    )
}

/// What the encoder needs: matching array lengths, counts that fit a `u32`,
/// titles that fit their length prefix.
pub open spec fn encodable(d: DataView) -> bool {
    &&& d.pages.len() == d.nodes.len()
    &&& d.links.len() == d.edges.len()
    &&& d.pages.len() < U32_MAX
    &&& d.links.len() < U32_MAX
    &&& forall|i: int| 0 <= i < d.pages.len() ==> encode_utf8(#[trigger] d.pages[i].title).len() <= TITLE_LEN_MAX
}

// ----- decoding -----

pub open spec fn parse_u8(b: Seq<u8>, pos: int) -> Option<(u8, int)> {
    if 0 <= pos < b.len() {
        Some((b[pos], pos + 1))
    } else {
        None
    }
}

pub open spec fn parse_u16(b: Seq<u8>, pos: int) -> Option<(u16, int)> {
    if 0 <= pos && pos + 2 <= b.len() {
        Some((spec_u16_from_le_bytes(b.subrange(pos, pos + 2)), pos + 2))
    } else {
        None
    }
}

pub open spec fn parse_u32(b: Seq<u8>, pos: int) -> Option<(u32, int)> {
    if 0 <= pos && pos + 4 <= b.len() {
        Some((spec_u32_from_le_bytes(b.subrange(pos, pos + 4)), pos + 4))
    } else {
        None
    }
}

pub open spec fn parse_title(b: Seq<u8>, pos: int, len: int) -> Option<(Seq<char>, int)> {
    if 0 <= pos && pos + len <= b.len() && valid_utf8(b.subrange(pos, pos + len)) {
        Some((decode_utf8(b.subrange(pos, pos + len)), pos + len))
    } else {
        None
    }
}

pub open spec fn parse_page(b: Seq<u8>, pos: int) -> Option<(PageView, int)> {
    match parse_u32(b, pos) {
        None => None,
        Some((id, at1)) => match parse_u32(b, at1) {
            None => None,
            Some((length, at2)) => match parse_u8(b, at2) {
                None => None,
                Some((redirect, at3)) => match parse_u16(b, at3) {
                    None => None,
                    Some((n, at4)) => match parse_title(b, at4, n as int) {
                        None => None,
                        Some((title, at5)) => Some(
                            (PageView { id, title, length, redirect: redirect != 0 }, at5),
                        ),
                    },
                },
            },
        },
    }
}

pub open spec fn parse_link(b: Seq<u8>, pos: int) -> Option<(Link, int)> {
    match parse_u32(b, pos) {
        None => None,
        Some((start, at1)) => match parse_u32(b, at1) {
            None => None,
            Some((len, at2)) => match parse_u8(b, at2) {
                None => None,
                Some((flags, at3)) => Some((Link { start, len, flags }, at3)),
            },
        },
    }
}

pub open spec fn parse_offset(b: Seq<u8>, pos: int) -> Option<(EdgeIdx, int)> {
    match parse_u32(b, pos) {
        None => None,
        Some((x, p)) => Some((EdgeIdx(x), p)),
    }
}

pub open spec fn parse_target(b: Seq<u8>, pos: int) -> Option<(NodeIdx, int)> {
    match parse_u32(b, pos) {
        None => None,
        Some((x, p)) => Some((NodeIdx(x), p)),
    }
}

pub open spec fn page_item() -> spec_fn(Seq<u8>, int) -> Option<(PageView, int)> {
    |b: Seq<u8>, p: int| parse_page(b, p)
}

pub open spec fn link_item() -> spec_fn(Seq<u8>, int) -> Option<(Link, int)> {
    |b: Seq<u8>, p: int| parse_link(b, p)
}

pub open spec fn offset_item() -> spec_fn(Seq<u8>, int) -> Option<(EdgeIdx, int)> {
    |b: Seq<u8>, p: int| parse_offset(b, p)
}

pub open spec fn target_item() -> spec_fn(Seq<u8>, int) -> Option<(NodeIdx, int)> {
    |b: Seq<u8>, p: int| parse_target(b, p)
}

/// Reads `n` items one after the other from `pos`.
pub open spec fn parse_many<T>(
    b: Seq<u8>,
    pos: int,
    n: nat,
    item: spec_fn(Seq<u8>, int) -> Option<(T, int)>,
) -> Option<(Seq<T>, int)>
    decreases n,
{
    if n == 0 {
        Some((seq![], pos))
    } else {
        match parse_many(b, pos, (n - 1) as nat, item) {
            None => None,
            Some((xs, p)) => match item(b, p) {
                None => None,
                Some((x, q)) => Some((xs.push(x), q)),
            },
        }
    }
}

/// The store that a byte stream holds, if it holds one.
pub open spec fn parse_data(b: Seq<u8>) -> Option<DataView> {
    match parse_u32(b, 0) {
        None => None,
        Some((np, at1)) => match parse_u32(b, at1) {
            None => None,
            Some((nl, at2)) => match parse_many(b, at2, np as nat, page_item()) {
                None => None,
                Some((pages, at3)) => match parse_many(b, at3, nl as nat, link_item()) {
                    None => None,
                    Some((links, at4)) => match parse_many(b, at4, np as nat, offset_item()) {
                        None => None,
                        Some((nodes, at5)) => match parse_many(b, at5, nl as nat, target_item()) {
                            None => None,
                            Some((edges, _)) => Some(DataView { pages, links, nodes, edges }),
                        },
                    },
                },
            },
        },
    }
}

// ----- lemmas -----

/// `b` holds `s` at `pos`.
pub open spec fn has(b: Seq<u8>, pos: int, s: Seq<u8>) -> bool {
    0 <= pos && pos + s.len() <= b.len() && b.subrange(pos, pos + s.len()) == s
}

proof fn lemma_has_split(b: Seq<u8>, pos: int, s: Seq<u8>, t: Seq<u8>)
    requires
        has(b, pos, s + t),
    ensures
        has(b, pos, s),
        has(b, pos + s.len(), t),
{
    assert(b.subrange(pos, pos + s.len()) =~= (s + t).subrange(0, s.len() as int));
    assert((s + t).subrange(0, s.len() as int) =~= s);
    assert(b.subrange(pos + s.len(), pos + s.len() + t.len()) =~= (s + t).subrange(
        s.len() as int,
        (s + t).len() as int,
    ));
    assert((s + t).subrange(s.len() as int, (s + t).len() as int) =~= t);
}

proof fn lemma_u32(b: Seq<u8>, pos: int, x: u32)
    requires
        has(b, pos, u32_le(x)),
    ensures
        parse_u32(b, pos) == Some((x, pos + 4)),
{
    lemma_auto_spec_u32_to_from_le_bytes();
}

proof fn lemma_u16(b: Seq<u8>, pos: int, x: u16)
    requires
        has(b, pos, u16_le(x)),
    ensures
        parse_u16(b, pos) == Some((x, pos + 2)),
{
    lemma_auto_spec_u16_to_from_le_bytes();
}

proof fn lemma_page(b: Seq<u8>, pos: int, p: PageView)
    requires
        has(b, pos, page_bytes(p)),
        encode_utf8(p.title).len() <= TITLE_LEN_MAX,
    ensures
        parse_page(b, pos) == Some((p, pos + page_bytes(p).len())),
{
    lemma_auto_spec_u32_to_from_le_bytes();
    lemma_auto_spec_u16_to_from_le_bytes();
    let t = encode_utf8(p.title);
    let r = seq![if p.redirect { 1u8 } else { 0u8 }];
    let a = u32_le(p.id);
    let c = u32_le(p.length);
    let d = u16_le(t.len() as u16);
    lemma_has_split(b, pos, a + c + r + d, t);
    lemma_has_split(b, pos, a + c + r, d);
    lemma_has_split(b, pos, a + c, r);
    lemma_has_split(b, pos, a, c);
    lemma_u32(b, pos, p.id);
    lemma_u32(b, pos + 4, p.length);
    lemma_u16(b, pos + 9, t.len() as u16);
    assert(b[pos + 8] == r[0]) by {
        assert(b.subrange(pos + 8, pos + 9)[0] == b[pos + 8]);
    }
    assert(b.subrange(pos + 11, pos + 11 + t.len()) == t);
}

proof fn lemma_link(b: Seq<u8>, pos: int, l: Link)
    requires
        has(b, pos, link_bytes(l)),
    ensures
        parse_link(b, pos) == Some((l, pos + link_bytes(l).len())),
{
    lemma_auto_spec_u32_to_from_le_bytes();
    let a = u32_le(l.start);
    let c = u32_le(l.len);
    lemma_has_split(b, pos, a + c, seq![l.flags]);
    lemma_has_split(b, pos, a, c);
    lemma_u32(b, pos, l.start);
    lemma_u32(b, pos + 4, l.len);
    assert(b[pos + 8] == l.flags) by {
        assert(b.subrange(pos + 8, pos + 9)[0] == b[pos + 8]);
    }
}

proof fn lemma_parse_many<T>(
    b: Seq<u8>,
    pos: int,
    xs: Seq<T>,
    enc: spec_fn(T) -> Seq<u8>,
    item: spec_fn(Seq<u8>, int) -> Option<(T, int)>,
)
    requires
        has(b, pos, encode_many(xs, enc)),
        forall|k: int, q: int|
            0 <= k < xs.len() && #[trigger] has(b, q, enc(xs[k])) ==> item(b, q) == Some(
                (xs[k], q + enc(xs[k]).len()),
            ),
    ensures
        parse_many(b, pos, xs.len(), item) == Some((xs, pos + encode_many(xs, enc).len())),
    decreases xs.len(),
{
    if xs.len() == 0 {
        assert(xs =~= seq![]);
    } else {
        let init = xs.drop_last();
        let a = encode_many(init, enc);
        let last = xs.last();
        lemma_has_split(b, pos, a, enc(last));
        assert forall|k: int, q: int|
            0 <= k < init.len() && #[trigger] has(b, q, enc(init[k])) implies item(b, q) == Some(
            (init[k], q + enc(init[k]).len()),
        ) by {
            assert(init[k] == xs[k]);
        }
        lemma_parse_many(b, pos, init, enc, item);
        assert(xs[xs.len() - 1] == last);
        assert(has(b, pos + a.len(), enc(xs[xs.len() - 1])));
        assert(init.push(last) =~= xs);
    }
}

proof fn lemma_parse_many_none<T>(
    b: Seq<u8>,
    pos: int,
    n: nat,
    m: nat,
    item: spec_fn(Seq<u8>, int) -> Option<(T, int)>,
)
    requires
        parse_many(b, pos, n, item) is None,
        n <= m,
    ensures
        parse_many(b, pos, m, item) is None,
    decreases m,
{
    if n < m {
        lemma_parse_many_none(b, pos, n, (m - 1) as nat, item);
    }
}

/// Decoding the encoding of a consistent store gives back that store.
pub proof fn lemma_round_trip(d: DataView)
    requires
        d.consistent(),
    ensures
        parse_data(data_bytes(d)) == Some(d),
{
    lemma_encodable(d);
    lemma_round_trip_encodable(d);
}

/// A consistent store can be encoded.
pub proof fn lemma_encodable(d: DataView)
    requires
        d.consistent(),
    ensures
        encodable(d),
{
}

/// Decoding the encoding of any store that the encoder accepts gives back
/// that store.
pub proof fn lemma_round_trip_encodable(d: DataView)
    requires
        encodable(d),
    ensures
        parse_data(data_bytes(d)) == Some(d),
{
    lemma_auto_spec_u32_to_from_le_bytes();
    let b = data_bytes(d);
    let h1 = u32_le(d.pages.len() as u32);
    let h2 = u32_le(d.links.len() as u32);
    let ps = encode_many(d.pages, page_enc());
    let ls = encode_many(d.links, link_enc());
    let ns = encode_many(d.nodes, offset_enc());
    let es = encode_many(d.edges, target_enc());
    assert(has(b, 0, b)) by {
        assert(b.subrange(0, b.len() as int) =~= b);
    }
    lemma_has_split(b, 0, h1 + h2 + ps + ls + ns, es);
    lemma_has_split(b, 0, h1 + h2 + ps + ls, ns);
    lemma_has_split(b, 0, h1 + h2 + ps, ls);
    lemma_has_split(b, 0, h1 + h2, ps);
    lemma_has_split(b, 0, h1, h2);
    lemma_u32(b, 0, d.pages.len() as u32);
    lemma_u32(b, 4, d.links.len() as u32);
    let at3: int = 8 + ps.len() as int;
    let at4: int = at3 + ls.len() as int;
    let at5: int = at4 + ns.len() as int;
    assert forall|k: int, q: int|
        0 <= k < d.pages.len() && #[trigger] has(b, q, page_enc()(d.pages[k])) implies page_item()(
        b,
        q,
    ) == Some((d.pages[k], q + page_enc()(d.pages[k]).len())) by {
        lemma_page(b, q, d.pages[k]);
    }
    lemma_parse_many(b, 8, d.pages, page_enc(), page_item());
    assert forall|k: int, q: int|
        0 <= k < d.links.len() && #[trigger] has(b, q, link_enc()(d.links[k])) implies link_item()(
        b,
        q,
    ) == Some((d.links[k], q + link_enc()(d.links[k]).len())) by {
        lemma_link(b, q, d.links[k]);
    }
    lemma_parse_many(b, at3, d.links, link_enc(), link_item());
    assert forall|k: int, q: int|
        0 <= k < d.nodes.len() && #[trigger] has(b, q, offset_enc()(d.nodes[k])) implies offset_item()(
        b,
        q,
    ) == Some((d.nodes[k], q + offset_enc()(d.nodes[k]).len())) by {
        lemma_u32(b, q, d.nodes[k].0);
    }
    lemma_parse_many(b, at4, d.nodes, offset_enc(), offset_item());
    assert forall|k: int, q: int|
        0 <= k < d.edges.len() && #[trigger] has(b, q, target_enc()(d.edges[k])) implies target_item()(
        b,
        q,
    ) == Some((d.edges[k], q + target_enc()(d.edges[k]).len())) by {
        lemma_u32(b, q, d.edges[k].0);
    }
    lemma_parse_many(b, at5, d.edges, target_enc(), target_item());
}

proof fn lemma_encode_many_step<T>(xs: Seq<T>, i: int, enc: spec_fn(T) -> Seq<u8>)
    requires
        0 <= i < xs.len(),
    ensures
        encode_many(xs.subrange(0, i + 1), enc) == encode_many(xs.subrange(0, i), enc) + enc(xs[i]),
{
    assert(xs.subrange(0, i + 1).drop_last() =~= xs.subrange(0, i));
}

// ----- executable codec -----

/// Relies on `String::from_utf8`: it accepts exactly the well-formed UTF-8
/// byte sequences and keeps the characters they encode.
#[verifier::external_body]
fn string_from_utf8(bytes: Vec<u8>) -> (r: Option<String>)
    ensures
        r.is_some() == valid_utf8(bytes@),
        r.is_some() ==> r.unwrap()@ == decode_utf8(bytes@),
{
    String::from_utf8(bytes).ok()
}

fn put_u32(out: &mut Vec<u8>, x: u32)
    ensures
        final(out)@ == old(out)@ + u32_le(x),
{
    let mut b = u32_to_le_bytes(x);
    out.append(&mut b);
}

fn put_bytes(out: &mut Vec<u8>, bytes: &[u8])
    ensures
        final(out)@ == old(out)@ + bytes@,
{
    let ghost start = out@;
    let mut i: usize = 0;
    while i < bytes.len()
        invariant
            0 <= i <= bytes@.len(),
            out@ == start + bytes@.subrange(0, i as int),
        decreases bytes@.len() - i,
    {
        out.push(bytes[i]);
        i = i + 1;
        assert(out@ =~= start + bytes@.subrange(0, i as int));
    }
    assert(bytes@.subrange(0, bytes@.len() as int) =~= bytes@);
}

fn put_page(out: &mut Vec<u8>, page: &Page)
    requires
        encode_utf8(page.title@).len() <= TITLE_LEN_MAX,
    ensures
        final(out)@ == old(out)@ + page_bytes(page@),
{
    let ghost start = out@;
    put_u32(out, page.id);
    put_u32(out, page.length);
    out.push(if page.redirect { 1u8 } else { 0u8 });
    let title = page.title.as_str().as_bytes();
    let mut len = u16_to_le_bytes(title.len() as u16);
    out.append(&mut len);
    put_bytes(out, title);
    assert(out@ =~= start + page_bytes(page@));
}

fn put_link(out: &mut Vec<u8>, link: Link)
    ensures
        final(out)@ == old(out)@ + link_bytes(link),
{
    let ghost start = out@;
    put_u32(out, link.start);
    put_u32(out, link.len);
    out.push(link.flags);
    assert(out@ =~= start + link_bytes(link));
}

/// Encodes a store as one contiguous byte stream.
pub fn write_adjacency_list(data: &Data) -> (r: Vec<u8>)
    requires
        encodable(data@),
    ensures
        r@ == data_bytes(data@),
{
    let ghost d = data@;
    let mut out: Vec<u8> = Vec::new();
    put_u32(&mut out, data.pages.len() as u32);
    put_u32(&mut out, data.links.len() as u32);
    let ghost head = out@;
    let mut i: usize = 0;
    while i < data.pages.len()
        invariant
            d == data@,
            encodable(d),
            0 <= i <= d.pages.len(),
            out@ == head + encode_many(d.pages.subrange(0, i as int), page_enc()),
        decreases d.pages.len() - i,
    {
        assert(d.pages[i as int] == data.pages@[i as int]@);
        assert(encode_utf8(d.pages[i as int].title).len() <= TITLE_LEN_MAX);
        put_page(&mut out, &data.pages[i]);
        proof {
            lemma_encode_many_step(d.pages, i as int, page_enc());
        }
        i = i + 1;
        assert(out@ =~= head + encode_many(d.pages.subrange(0, i as int), page_enc()));
    }
    assert(d.pages.subrange(0, d.pages.len() as int) =~= d.pages);
    let ghost head = out@;
    let mut i: usize = 0;
    while i < data.links.len()
        invariant
            d == data@,
            0 <= i <= d.links.len(),
            out@ == head + encode_many(d.links.subrange(0, i as int), link_enc()),
        decreases d.links.len() - i,
    {
        put_link(&mut out, data.links[i]);
        proof {
            lemma_encode_many_step(d.links, i as int, link_enc());
        }
        i = i + 1;
        assert(out@ =~= head + encode_many(d.links.subrange(0, i as int), link_enc()));
    }
    assert(d.links.subrange(0, d.links.len() as int) =~= d.links);
    let ghost head = out@;
    let mut i: usize = 0;
    while i < data.graph.nodes.len()
        invariant
            d == data@,
            0 <= i <= d.nodes.len(),
            out@ == head + encode_many(d.nodes.subrange(0, i as int), offset_enc()),
        decreases d.nodes.len() - i,
    {
        put_u32(&mut out, data.graph.nodes[i].0);
        proof {
            lemma_encode_many_step(d.nodes, i as int, offset_enc());
        }
        i = i + 1;
        assert(out@ =~= head + encode_many(d.nodes.subrange(0, i as int), offset_enc()));
    }
    assert(d.nodes.subrange(0, d.nodes.len() as int) =~= d.nodes);
    let ghost head = out@;
    let mut i: usize = 0;
    while i < data.graph.edges.len()
        invariant
            d == data@,
            0 <= i <= d.edges.len(),
            out@ == head + encode_many(d.edges.subrange(0, i as int), target_enc()),
        decreases d.edges.len() - i,
    {
        put_u32(&mut out, data.graph.edges[i].0);
        proof {
            lemma_encode_many_step(d.edges, i as int, target_enc());
        }
        i = i + 1;
        assert(out@ =~= head + encode_many(d.edges.subrange(0, i as int), target_enc()));
    }
    assert(d.edges.subrange(0, d.edges.len() as int) =~= d.edges);
    assert(out@ =~= data_bytes(d));
    out
}

fn read_u8(b: &[u8], pos: usize) -> (r: Option<u8>)
    ensures
        match parse_u8(b@, pos as int) {
            Some((x, _)) => r == Some(x),
            None => r is None,
        },
{
    if pos < b.len() {
        Some(b[pos])
    } else {
        None
    }
}

fn read_u16(b: &[u8], pos: usize) -> (r: Option<u16>)
    ensures
        match parse_u16(b@, pos as int) {
            Some((x, _)) => r == Some(x),
            None => r is None,
        },
{
    if pos <= b.len() && b.len() - pos >= 2 {
        Some(u16_from_le_bytes(slice_subrange(b, pos, pos + 2)))
    } else {
        None
    }
}

fn read_u32(b: &[u8], pos: usize) -> (r: Option<u32>)
    ensures
        match parse_u32(b@, pos as int) {
            Some((x, _)) => r == Some(x) && pos + 4 <= b@.len(),
            None => r is None,
        },
{
    if pos <= b.len() && b.len() - pos >= 4 {
        Some(u32_from_le_bytes(slice_subrange(b, pos, pos + 4)))
    } else {
        None
    }
}

/// Reads the page that starts at `pos`, with the position just past it.
pub fn read_page(b: &[u8], pos: usize) -> (r: Option<(Page, usize)>)
    ensures
        match parse_page(b@, pos as int) {
            Some((p, q)) => r is Some && r.unwrap().0@ == p && r.unwrap().1 == q && q <= b@.len(),
            None => r is None,
        },
{
    if pos > b.len() || b.len() - pos < 11 {
        return None;
    }
    let id = match read_u32(b, pos) {
        Some(x) => x,
        None => return None,
    };
    let length = match read_u32(b, pos + 4) {
        Some(x) => x,
        None => return None,
    };
    let redirect = match read_u8(b, pos + 8) {
        Some(x) => x,
        None => return None,
    };
    let n = match read_u16(b, pos + 9) {
        Some(x) => x as usize,
        None => return None,
    };
    let at4 = pos + 11;
    if b.len() - at4 < n {
        return None;
    }
    let bytes = slice_to_vec(slice_subrange(b, at4, at4 + n));
    match string_from_utf8(bytes) {
        Some(title) => Some((Page { id, title, length, redirect: redirect != 0 }, at4 + n)),
        None => None,
    }
}

fn read_link(b: &[u8], pos: usize) -> (r: Option<(Link, usize)>)
    ensures
        match parse_link(b@, pos as int) {
            Some((l, q)) => r is Some && r.unwrap().0 == l && r.unwrap().1 == q && q <= b@.len(),
            None => r is None,
        },
{
    if pos > b.len() || b.len() - pos < 9 {
        return None;
    }
    let start = match read_u32(b, pos) {
        Some(x) => x,
        None => return None,
    };
    let len = match read_u32(b, pos + 4) {
        Some(x) => x,
        None => return None,
    };
    let flags = match read_u8(b, pos + 8) {
        Some(x) => x,
        None => return None,
    };
    Some((Link { start, len, flags }, pos + 9))
}

/// Decodes a store from the start of `b`; bytes after it are ignored.
pub fn read_adjacency_list(b: &[u8]) -> (r: Result<Data, ReadError>)
    ensures
        match r {
            Ok(d) => parse_data(b@) == Some(d@) && d@.consistent(),
            Err(ReadError::Malformed) => parse_data(b@) is None,
            Err(ReadError::Inconsistent) => parse_data(b@) is Some && !parse_data(b@).unwrap().consistent(),
        },
{
    let np = match read_u32(b, 0) {
        Some(x) => x,
        None => return Err(ReadError::Malformed),
    };
    let nl = match read_u32(b, 4) {
        Some(x) => x,
        None => return Err(ReadError::Malformed),
    };
    let mut pos: usize = 8;
    let blen = b.len();

    let mut pages: Vec<Page> = Vec::new();
    let mut i: u32 = 0;
    while i < np
        invariant
            0 <= i <= np,
            pos <= b@.len(),
            blen == b@.len(),
            parse_u32(b@, 0) == Some((np, 4int)),
            parse_u32(b@, 4) == Some((nl, 8int)),

            parse_many(b@, 8, i as nat, page_item()) == Some((pages_view(pages@), pos as int)),
        decreases np - i,
    {
        match read_page(b, pos) {
            Some((page, q)) => {
                proof {
                    assert(pages_view(pages@.push(page)) =~= pages_view(pages@).push(page@));
                }
                pages.push(page);
                pos = q;
            },
            None => {
                proof {
                    lemma_parse_many_none(b@, 8, (i + 1) as nat, np as nat, page_item());
                }
                return Err(ReadError::Malformed);
            },
        }
        i = i + 1;
    }
    let ghost at3 = pos as int;

    let mut links: Vec<Link> = Vec::new();
    let mut i: u32 = 0;
    while i < nl
        invariant
            0 <= i <= nl,
            at3 <= pos <= b@.len(),
            blen == b@.len(),
            parse_u32(b@, 0) == Some((np, 4int)),
            parse_u32(b@, 4) == Some((nl, 8int)),
            parse_many(b@, 8, np as nat, page_item()) == Some((pages_view(pages@), at3)),
            parse_many(b@, at3, i as nat, link_item()) == Some((links@, pos as int)),
        decreases nl - i,
    {
        match read_link(b, pos) {
            Some((link, q)) => {
                links.push(link);
                pos = q;
            },
            None => {
                proof {
                    lemma_parse_many_none(b@, at3, (i + 1) as nat, nl as nat, link_item());
                }
                return Err(ReadError::Malformed);
            },
        }
        i = i + 1;
    }
    let ghost at4 = pos as int;

    let mut nodes: Vec<EdgeIdx> = Vec::new();
    let mut i: u32 = 0;
    while i < np
        invariant
            0 <= i <= np,
            at4 <= pos <= b@.len(),
            blen == b@.len(),
            parse_u32(b@, 0) == Some((np, 4int)),
            parse_u32(b@, 4) == Some((nl, 8int)),
            parse_many(b@, 8, np as nat, page_item()) == Some((pages_view(pages@), at3)),
            parse_many(b@, at3, nl as nat, link_item()) == Some((links@, at4)),
            parse_many(b@, at4, i as nat, offset_item()) == Some((nodes@, pos as int)),
        decreases np - i,
    {
        match read_u32(b, pos) {
            Some(x) => {
                nodes.push(EdgeIdx(x));
                pos = pos + 4;
            },
            None => {
                proof {
                    lemma_parse_many_none(b@, at4, (i + 1) as nat, np as nat, offset_item());
                }
                return Err(ReadError::Malformed);
            },
        }
        i = i + 1;
    }
    let ghost at5 = pos as int;

    let mut edges: Vec<NodeIdx> = Vec::new();
    let mut i: u32 = 0;
    while i < nl
        invariant
            0 <= i <= nl,
            at5 <= pos <= b@.len(),
            blen == b@.len(),
            parse_u32(b@, 0) == Some((np, 4int)),
            parse_u32(b@, 4) == Some((nl, 8int)),
            parse_many(b@, 8, np as nat, page_item()) == Some((pages_view(pages@), at3)),
            parse_many(b@, at3, nl as nat, link_item()) == Some((links@, at4)),
            parse_many(b@, at4, np as nat, offset_item()) == Some((nodes@, at5)),
            parse_many(b@, at5, i as nat, target_item()) == Some((edges@, pos as int)),
        decreases nl - i,
    {
        match read_u32(b, pos) {
            Some(x) => {
                edges.push(NodeIdx(x));
                pos = pos + 4;
            },
            None => {
                proof {
                    lemma_parse_many_none(b@, at5, (i + 1) as nat, nl as nat, target_item());
                }
                return Err(ReadError::Malformed);
            },
        }
        i = i + 1;
    }

    let data = Data { pages, links, graph: Graph { nodes, edges } };
    assert(parse_data(b@) == Some(data@));
    if data.check_consistency() {
        Ok(data)
    } else {
        Err(ReadError::Inconsistent)
    }
}

} // verus!
