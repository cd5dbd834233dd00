use flowforge::graph::GraphIndex;
use flowforge::model::{ConnectionStore, NodeKind, NodeStore, Position, Warning};

fn pos(x_bits: u32, y_bits: u32) -> Position {
    Position { x_bits, y_bits }
}

#[test]
fn build_lists_vertices_in_insertion_order() {
    let mut ns = NodeStore::new();
    let a = ns.add(NodeKind::Source { value: 1 }, pos(0, 0)).unwrap();
    let b = ns.add(NodeKind::Sink, pos(1, 1)).unwrap();
    let cs = ConnectionStore::new();
    let (g, warnings) = GraphIndex::build(&ns, &cs);
    assert!(warnings.is_empty());
    assert_eq!(g.node_count(), 2);
    assert_eq!(g.id_at(0), a);
    assert_eq!(g.id_at(1), b);
}

#[test]
fn build_records_incoming_edges_in_connection_order() {
    let mut ns = NodeStore::new();
    let a = ns.add(NodeKind::Source { value: 1 }, pos(0, 0)).unwrap();
    let b = ns.add(NodeKind::Source { value: 2 }, pos(1, 0)).unwrap();
    let c = ns.add(NodeKind::BinaryCombine, pos(2, 0)).unwrap();
    let mut cs = ConnectionStore::new();
    cs.add(b, c).unwrap();
    cs.add(a, c).unwrap();
    let (g, warnings) = GraphIndex::build(&ns, &cs);
    assert!(warnings.is_empty());
    // vertex indices follow node insertion order: a = 0, b = 1, c = 2
    assert_eq!(g.preds_of(0).as_slice(), &[] as &[usize]);
    assert_eq!(g.preds_of(1).as_slice(), &[] as &[usize]);
    assert_eq!(g.preds_of(2).as_slice(), &[1, 0]);
}

#[test]
fn build_drops_dangling_connections_with_a_warning() {
    let mut ns = NodeStore::new();
    let a = ns.add(NodeKind::Source { value: 1 }, pos(0, 0)).unwrap();
    let b = ns.add(NodeKind::Sink, pos(1, 0)).unwrap();
    let mut cs = ConnectionStore::new();
    let live = cs.add(a, b).unwrap();
    let dangling = cs.add(a, 777).unwrap();
    let (g, warnings) = GraphIndex::build(&ns, &cs);
    assert_eq!(warnings, vec![Warning::GraphInconsistency { connection_id: dangling }]);
    assert_ne!(live, dangling);
    assert_eq!(g.preds_of(1).as_slice(), &[0]);
}

#[test]
fn successors_are_listed_once_in_vertex_order() {
    let mut ns = NodeStore::new();
    let a = ns.add(NodeKind::Source { value: 1 }, pos(0, 0)).unwrap();
    let b = ns.add(NodeKind::Sink, pos(1, 0)).unwrap();
    let c = ns.add(NodeKind::Sink, pos(2, 0)).unwrap();
    let mut cs = ConnectionStore::new();
    cs.add(a, c).unwrap();
    cs.add(a, b).unwrap();
    let (g, _) = GraphIndex::build(&ns, &cs);
    assert_eq!(g.successors_of(0).as_slice(), &[1, 2]);
    assert_eq!(g.successors_of(1).as_slice(), &[] as &[usize]);
    assert_eq!(g.successors_of(2).as_slice(), &[] as &[usize]);
}
