use jitos::canonical::CanonicalError;
use jitos::graph::{graph_commit_hash, GraphEdge, GraphNode};
use jitos::ids::NodeId;

fn node_id(b: u8) -> NodeId {
    NodeId::from_hash(jitos::hash::Hash([b; 32]))
}

fn node(id: NodeId, kind: &str, payload_bytes: Vec<u8>) -> GraphNode {
    GraphNode { id, kind: kind.to_string(), payload_bytes, attachment: None }
}

fn edge(source: usize, target: usize, payload_bytes: Option<Vec<u8>>) -> GraphEdge {
    GraphEdge { source, target, kind: "demo.edge".to_string(), payload_bytes, attachment: None }
}

fn two_nodes() -> Vec<GraphNode> {
    vec![node(node_id(1), "demo.A", br#"{"k":"A"}"#.to_vec()), node(node_id(2), "demo.B", br#"{"k":"B"}"#.to_vec())]
}

#[test]
fn graph_hash_is_invariant_under_insertion_order() {
    let g1 = two_nodes();
    let g2 = vec![node(node_id(2), "demo.B", br#"{"k":"B"}"#.to_vec()), node(node_id(1), "demo.A", br#"{"k":"A"}"#.to_vec())];
    let h1 = graph_commit_hash(&g1, &vec![edge(0, 1, None)]).unwrap();
    let h2 = graph_commit_hash(&g2, &vec![edge(1, 0, None)]).unwrap();
    assert_ne!(h1, jitos::hash::Hash([0u8; 32]), "hash must not be placeholder-zero");
    assert_eq!(h1, h2, "same content must produce identical graph hash");
}

#[test]
fn graph_hash_changes_when_node_payload_changes() {
    let h1 = graph_commit_hash(&vec![node(node_id(1), "demo.A", br#"{"k":"A"}"#.to_vec())], &vec![]).unwrap();
    let h2 = graph_commit_hash(&vec![node(node_id(1), "demo.A", br#"{"k":"A2"}"#.to_vec())], &vec![]).unwrap();
    assert_ne!(h1, h2, "payload changes must change the graph hash");
}

#[test]
fn graph_hash_depends_on_payload_bytes_not_json_semantics() {
    let h1 = graph_commit_hash(&vec![node(node_id(1), "demo.A", br#"{"a":1,"b":2}"#.to_vec())], &vec![]).unwrap();
    let h2 = graph_commit_hash(&vec![node(node_id(1), "demo.A", br#"{"b":2,"a":1}"#.to_vec())], &vec![]).unwrap();
    assert_ne!(h1, h2, "hash must treat payload as bytes (not canonicalized JSON semantics)");
}

#[test]
fn edge_payload_affects_graph_hash() {
    let h1 = graph_commit_hash(&two_nodes(), &vec![edge(0, 1, Some(vec![1, 2, 3]))]).unwrap();
    let h2 = graph_commit_hash(&two_nodes(), &vec![edge(0, 1, None)]).unwrap();
    assert_ne!(h1, h2, "edge payload must affect graph commit digest");
}

#[test]
fn edge_payload_none_vs_empty_are_distinct() {
    let h1 = graph_commit_hash(&two_nodes(), &vec![edge(0, 1, None)]).unwrap();
    let h2 = graph_commit_hash(&two_nodes(), &vec![edge(0, 1, Some(vec![]))]).unwrap();
    assert_ne!(h1, h2, "None vs Some(empty) edge payload must be identity-distinct");
}

#[test]
fn edge_payload_byte_level_sensitivity() {
    let h1 = graph_commit_hash(&two_nodes(), &vec![edge(0, 1, Some(br#"{"a":1,"b":2}"#.to_vec()))]).unwrap();
    let h2 = graph_commit_hash(&two_nodes(), &vec![edge(0, 1, Some(br#"{"b":2,"a":1}"#.to_vec()))]).unwrap();
    assert_ne!(h1, h2, "edge payloads must be treated as opaque bytes");
}

#[test]
fn missing_endpoint_is_refused() {
    let nodes = vec![node(node_id(1), "demo.A", vec![1])];
    assert!(matches!(graph_commit_hash(&nodes, &vec![edge(0, 5, None)]), Err(CanonicalError::Decode(_))));
}
