//! The commit digest of an effect graph: a canonical record of its nodes and
//! edges, independent of the order in which they were stored.
use vstd::prelude::*;
use crate::canonical::{concat, head, write_major, lemma_concat_push, sort_entries, pair_views, views, entry_order, lemma_entry_le_total, CanonicalError};
use crate::events::{byte_items, hash_item, write_byte_items};
use crate::hash::blake3_digest;
use crate::ids::NodeId;
use crate::record::{text_item, write_text};

verus! {

/// A node as committed: identity, kind, canonical payload bytes and an
/// optional attached graph.
pub struct GraphNode {
    pub id: NodeId,
    pub kind: String,
    pub payload_bytes: Vec<u8>,
    pub attachment: Option<crate::hash::Hash>,
}

/// An edge between two nodes, given by their positions in the node list,
/// with an optional opaque payload.
pub struct GraphEdge {
    pub source: usize,
    pub target: usize,
    pub kind: String,
    pub payload_bytes: Option<Vec<u8>>,
    pub attachment: Option<crate::hash::Hash>,
}

/// The encoding of an optional byte string: null when absent.
pub open spec fn opt_byte_items(b: Option<Vec<u8>>) -> Seq<u8> {
    match b {
        Some(x) => byte_items(x@),
        None => seq![0xf6u8],
    }
}

/// The encoding of an optional digest: null when absent.
pub open spec fn opt_hash_item(h: Option<crate::hash::Hash>) -> Seq<u8> {
    match h {
        Some(x) => hash_item(x),
        None => seq![0xf6u8],
    }
}

/// The canonical record `{kind, node_id, attachment, payload_bytes}` of a node.
pub open spec fn node_item(n: GraphNode) -> Seq<u8> {
    head(5, 4) + text_item("kind"@) + text_item(n.kind@) + text_item("node_id"@) + hash_item(n.id.0) + text_item(
        "attachment"@,
    ) + opt_hash_item(n.attachment) + text_item("payload_bytes"@) + byte_items(n.payload_bytes@)
}

/// A node keyed by its identity bytes for ordering.
pub open spec fn node_pair(n: GraphNode) -> (Seq<u8>, Seq<u8>) {
    (n.id.0.0@, node_item(n))
}

/// The canonical tuple `("warp-edge-v0", from, to, kind, attachment)` that
/// names an edge.
pub open spec fn edge_id_input(from: NodeId, to: NodeId, kind: Seq<char>, att: Option<crate::hash::Hash>) -> Seq<u8> {
    head(4, 5) + text_item("warp-edge-v0"@) + hash_item(from.0) + hash_item(to.0) + text_item(kind) + opt_hash_item(att)
}

/// The canonical record `{to, from, kind, edge_id, attachment, payload_bytes}`
/// of an edge.
pub open spec fn edge_item(from: NodeId, to: NodeId, kind: Seq<char>, att: Option<crate::hash::Hash>, payload: Option<Vec<u8>>) -> Seq<u8> {
    head(5, 6) + text_item("to"@) + hash_item(to.0) + text_item("from"@) + hash_item(from.0) + text_item("kind"@)
        + text_item(kind) + text_item("edge_id"@) + byte_items(blake3_digest(edge_id_input(from, to, kind, att)))
        + text_item("attachment"@) + opt_hash_item(att) + text_item("payload_bytes"@) + opt_byte_items(payload)
}

/// An edge keyed by its identity for ordering, its endpoints resolved in `nodes`.
pub open spec fn edge_pair(nodes: Seq<GraphNode>, e: GraphEdge) -> (Seq<u8>, Seq<u8>) {
    let from = nodes[e.source as int].id;
    let to = nodes[e.target as int].id;
    (blake3_digest(edge_id_input(from, to, e.kind@, e.attachment)), edge_item(from, to, e.kind@, e.attachment, e.payload_bytes))
}

pub open spec fn items_of(s: Seq<(Seq<u8>, Seq<u8>)>) -> Seq<u8> {
    concat(s.map_values(|p: (Seq<u8>, Seq<u8>)| p.1))
}

/// The canonical record `{edges, nodes, version}` of a commit.
pub open spec fn commit_bytes(ns: Seq<(Seq<u8>, Seq<u8>)>, es: Seq<(Seq<u8>, Seq<u8>)>) -> Seq<u8> {
    head(5, 3) + text_item("edges"@) + head(4, es.len()) + items_of(es) + text_item("nodes"@) + head(4, ns.len())
        + items_of(ns) + text_item("version"@) + text_item("graph-commit-v0"@)
}

pub open spec fn node_pairs(nodes: Seq<GraphNode>) -> Seq<(Seq<u8>, Seq<u8>)> {
    nodes.map_values(|n: GraphNode| node_pair(n))
}

pub open spec fn edge_pairs(nodes: Seq<GraphNode>, edges: Seq<GraphEdge>) -> Seq<(Seq<u8>, Seq<u8>)> {
    edges.map_values(|e: GraphEdge| edge_pair(nodes, e))
}

/// The commit digest: nodes in ascending order of identity, edges in
/// ascending order of edge identity.
pub open spec fn graph_digest(nodes: Seq<GraphNode>, edges: Seq<GraphEdge>) -> Seq<u8> {
    blake3_digest(commit_bytes(node_pairs(nodes).sort_by(entry_order()), edge_pairs(nodes, edges).sort_by(entry_order())))
}

/// Every edge names nodes that exist.
pub open spec fn endpoints_exist(nodes: Seq<GraphNode>, edges: Seq<GraphEdge>) -> bool {
    forall|i: int| 0 <= i < edges.len() ==> (#[trigger] edges[i]).source < nodes.len() && edges[i].target < nodes.len()
}

fn write_opt_hash(h: &Option<crate::hash::Hash>, out: &mut Vec<u8>)
    ensures
        final(out)@ == old(out)@ + opt_hash_item(*h),
{
    match h {
        Some(x) => write_byte_items(x.0.as_slice(), out),
        None => {
            out.push(0xf6);
            assert(final(out)@ =~= old(out)@ + seq![0xf6u8]);
        },
    }
}

fn node_item_bytes(n: &GraphNode) -> (r: Vec<u8>)
    ensures
        r@ == node_item(*n),
{
    let mut out: Vec<u8> = Vec::new();
    write_major(5, 4, &mut out);
    write_text("kind", &mut out);
    write_text(n.kind.as_str(), &mut out);
    write_text("node_id", &mut out);
    write_byte_items(n.id.0.0.as_slice(), &mut out);
    write_text("attachment", &mut out);
    write_opt_hash(&n.attachment, &mut out);
    write_text("payload_bytes", &mut out);
    write_byte_items(n.payload_bytes.as_slice(), &mut out);
    assert(out@ =~= node_item(*n));
    out
}

fn edge_id_bytes(from: &NodeId, to: &NodeId, kind: &str, att: &Option<crate::hash::Hash>) -> (r: Vec<u8>)
    ensures
        r@ == edge_id_input(*from, *to, kind@, *att),
{
    let mut out: Vec<u8> = Vec::new();
    write_major(4, 5, &mut out);
    write_text("warp-edge-v0", &mut out);
    write_byte_items(from.0.0.as_slice(), &mut out);
    write_byte_items(to.0.0.as_slice(), &mut out);
    write_text(kind, &mut out);
    write_opt_hash(att, &mut out);
    assert(out@ =~= edge_id_input(*from, *to, kind@, *att));
    out
}

fn edge_item_bytes(
    from: &NodeId,
    to: &NodeId,
    kind: &str,
    att: &Option<crate::hash::Hash>,
    payload: &Option<Vec<u8>>,
    id: &crate::hash::Hash,
) -> (r: Vec<u8>)
    requires
        id.0@ == blake3_digest(edge_id_input(*from, *to, kind@, *att)),
    ensures
        r@ == edge_item(*from, *to, kind@, *att, *payload),
{
    let mut out: Vec<u8> = Vec::new();
    write_major(5, 6, &mut out);
    write_text("to", &mut out);
    write_byte_items(to.0.0.as_slice(), &mut out);
    write_text("from", &mut out);
    write_byte_items(from.0.0.as_slice(), &mut out);
    write_text("kind", &mut out);
    write_text(kind, &mut out);
    write_text("edge_id", &mut out);
    write_byte_items(id.0.as_slice(), &mut out);
    write_text("attachment", &mut out);
    write_opt_hash(att, &mut out);
    write_text("payload_bytes", &mut out);
    match payload {
        Some(b) => write_byte_items(b.as_slice(), &mut out),
        None => out.push(0xf6),
    }
    assert(out@ =~= edge_item(*from, *to, kind@, *att, *payload));
    out
}

fn write_items(s: &Vec<(Vec<u8>, Vec<u8>)>, out: &mut Vec<u8>)
    ensures
        final(out)@ == old(out)@ + head(4, s@.len() as nat) + items_of(pair_views(s@)),
{
    write_major(4, s.len() as u64, out);
    let ghost start = out@;
    let ghost sv = pair_views(s@);
    let mut i: usize = 0;
    assert(sv.subrange(0, 0).map_values(|p: (Seq<u8>, Seq<u8>)| p.1) =~= Seq::<Seq<u8>>::empty());
    assert(start =~= start + concat(Seq::<Seq<u8>>::empty()));
    while i < s.len()
        invariant
            i <= s@.len(),
            sv == pair_views(s@),
            out@ == start + items_of(sv.subrange(0, i as int)),
        decreases s.len() - i,
    {
        let ghost prev = sv.subrange(0, i as int).map_values(|p: (Seq<u8>, Seq<u8>)| p.1);
        crate::canonical::push_all(out, s[i].1.as_slice());
        proof {
            assert(sv.subrange(0, i + 1).map_values(|p: (Seq<u8>, Seq<u8>)| p.1) =~= prev.push(sv[i as int].1));
            lemma_concat_push(prev, sv[i as int].1);
        }
        i = i + 1;
    }
    assert(sv.subrange(0, i as int) =~= sv);
    assert(final(out)@ =~= old(out)@ + head(4, s@.len() as nat) + items_of(sv));
}

/// The commit digest of a graph. Fails exactly when an edge names a node
/// that does not exist.
pub fn graph_commit_hash(nodes: &Vec<GraphNode>, edges: &Vec<GraphEdge>) -> (r: Result<crate::hash::Hash, CanonicalError>)
    ensures
        r is Ok <==> endpoints_exist(nodes@, edges@),
        r matches Ok(h) ==> h.0@ == graph_digest(nodes@, edges@),
        r matches Err(e) ==> e is Decode,
{
    let mut nk: Vec<Vec<u8>> = Vec::new();
    let mut nv: Vec<Vec<u8>> = Vec::new();
    let mut i: usize = 0;
    while i < nodes.len()
        invariant
            i <= nodes@.len(),
            nk@.len() == i,
            nv@.len() == i,
            forall|j: int| 0 <= j < i ==> (#[trigger] nk@[j])@ == node_pair(nodes@[j]).0 && nv@[j]@ == node_pair(nodes@[j]).1,
        decreases nodes.len() - i,
    {
        nk.push(crate::canonical::copy_bytes(nodes[i].id.0.0.as_slice()));
        nv.push(node_item_bytes(&nodes[i]));
        i = i + 1;
    }
    let mut ek: Vec<Vec<u8>> = Vec::new();
    let mut ev: Vec<Vec<u8>> = Vec::new();
    let mut i: usize = 0;
    while i < edges.len()
        invariant
            i <= edges@.len(),
            ek@.len() == i,
            ev@.len() == i,
            forall|j: int| 0 <= j < i ==> (#[trigger] edges@[j]).source < nodes@.len() && edges@[j].target < nodes@.len(),
            forall|j: int| 0 <= j < i ==> (#[trigger] ek@[j])@ == edge_pair(nodes@, edges@[j]).0 && ev@[j]@ == edge_pair(nodes@, edges@[j]).1,
        decreases edges.len() - i,
    {
        let e = &edges[i];
        if e.source >= nodes.len() {
            return Err(CanonicalError::Decode("edge source references missing node".to_string()));
        }
        if e.target >= nodes.len() {
            return Err(CanonicalError::Decode("edge target references missing node".to_string()));
        }
        let from = nodes[e.source].id;
        let to = nodes[e.target].id;
        let idb = edge_id_bytes(&from, &to, e.kind.as_str(), &e.attachment);
        let id = crate::hash::Hash::digest(idb.as_slice());
        ek.push(crate::canonical::copy_bytes(id.0.as_slice()));
        ev.push(edge_item_bytes(&from, &to, e.kind.as_str(), &e.attachment, &e.payload_bytes, &id));
        i = i + 1;
    }
    proof {
        assert(views(nk@).len() == nodes@.len());
        assert(zip_views(nk@, nv@) =~= node_pairs(nodes@)) by {
            assert forall|j: int| 0 <= j < nodes@.len() implies #[trigger] zip_views(nk@, nv@)[j] == node_pairs(nodes@)[j] by {
                assert(nk@[j]@ == node_pair(nodes@[j]).0);
            }
        }
        assert(zip_views(ek@, ev@) =~= edge_pairs(nodes@, edges@)) by {
            assert forall|j: int| 0 <= j < edges@.len() implies #[trigger] zip_views(ek@, ev@)[j] == edge_pairs(nodes@, edges@)[j] by {
                assert(ek@[j]@ == edge_pair(nodes@, edges@[j]).0);
            }
        }
    }
    let sn = sort_entries(&nk, &nv);
    let se = sort_entries(&ek, &ev);
    let mut out: Vec<u8> = Vec::new();
    write_major(5, 3, &mut out);
    write_text("edges", &mut out);
    write_items(&se, &mut out);
    write_text("nodes", &mut out);
    write_items(&sn, &mut out);
    write_text("version", &mut out);
    write_text("graph-commit-v0", &mut out);
    proof {
        assert(pair_views(sn@).len() == sn@.len());
        assert(out@ =~= commit_bytes(pair_views(sn@), pair_views(se@)));
    }
    Ok(crate::hash::Hash::digest(out.as_slice()))
}

pub open spec fn zip_views(ks: Seq<Vec<u8>>, vs: Seq<Vec<u8>>) -> Seq<(Seq<u8>, Seq<u8>)> {
    crate::canonical::zip_entries(views(ks), views(vs))
}

/// Storage order does not matter: graphs whose node records and resolved
/// edge records are the same multisets have the same commit digest.
pub proof fn lemma_graph_digest_order_independent(
    n1: Seq<GraphNode>,
    e1: Seq<GraphEdge>,
    n2: Seq<GraphNode>,
    e2: Seq<GraphEdge>,
)
    requires
        node_pairs(n1).to_multiset() == node_pairs(n2).to_multiset(),
        edge_pairs(n1, e1).to_multiset() == edge_pairs(n2, e2).to_multiset(),
    ensures
        graph_digest(n1, e1) == graph_digest(n2, e2),
{
    lemma_entry_le_total();
    let a1 = node_pairs(n1);
    let a2 = node_pairs(n2);
    let b1 = edge_pairs(n1, e1);
    let b2 = edge_pairs(n2, e2);
    a1.lemma_sort_by_ensures(entry_order());
    a2.lemma_sort_by_ensures(entry_order());
    b1.lemma_sort_by_ensures(entry_order());
    b2.lemma_sort_by_ensures(entry_order());
    vstd::seq_lib::lemma_sorted_unique(a1.sort_by(entry_order()), a2.sort_by(entry_order()), entry_order());
    vstd::seq_lib::lemma_sorted_unique(b1.sort_by(entry_order()), b2.sort_by(entry_order()), entry_order());
}

} // verus!
