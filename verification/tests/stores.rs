use flowforge::model::{ConnectError, ConnectionStore, NodeKind, NodeStore, Position};

fn pos(x_bits: u32, y_bits: u32) -> Position {
    Position { x_bits, y_bits }
}

#[test]
fn node_store_assigns_distinct_ids_in_order() {
    let mut ns = NodeStore::new();
    let a = ns.add(NodeKind::Source { value: 1 }, pos(0, 0)).unwrap();
    let b = ns.add(NodeKind::Sink, pos(1, 1)).unwrap();
    assert_ne!(a, b);
    assert_eq!(ns.node_count(), 2);
    assert_eq!(ns.node_at(0).id, a);
    assert_eq!(ns.node_at(1).id, b);
}

#[test]
fn node_store_get_finds_only_live_ids() {
    let mut ns = NodeStore::new();
    let a = ns.add(NodeKind::Sink, pos(0, 0)).unwrap();
    assert!(ns.get(a).is_some());
    assert!(ns.get(a + 1).is_none());
    ns.remove(a);
    assert!(ns.get(a).is_none());
    // removing again is a harmless no-op
    ns.remove(a);
    assert_eq!(ns.node_count(), 0);
}

#[test]
fn connection_store_rejects_self_loops() {
    let mut cs = ConnectionStore::new();
    assert_eq!(cs.add(3, 3), Err(ConnectError::SelfLoop));
    assert_eq!(cs.conn_count(), 0);
}

#[test]
fn connection_store_rejects_duplicate_pairs() {
    let mut cs = ConnectionStore::new();
    let first = cs.add(1, 2).unwrap();
    assert_eq!(cs.add(1, 2), Err(ConnectError::Duplicate));
    // the reverse direction is a different pair
    let back = cs.add(2, 1).unwrap();
    assert_ne!(first, back);
    assert_eq!(cs.conn_count(), 2);
}

#[test]
fn connection_store_remove_incident_clears_both_directions() {
    let mut cs = ConnectionStore::new();
    cs.add(1, 2).unwrap();
    cs.add(3, 1).unwrap();
    cs.add(2, 3).unwrap();
    cs.remove_incident(1);
    assert_eq!(cs.conn_count(), 1);
    assert_eq!(cs.conn_at(0).source, 2);
    assert_eq!(cs.conn_at(0).target, 3);
}

#[test]
fn connection_store_remove_by_id() {
    let mut cs = ConnectionStore::new();
    let id = cs.add(1, 2).unwrap();
    let other = cs.add(2, 3).unwrap();
    cs.remove(id);
    assert_eq!(cs.conn_count(), 1);
    assert_eq!(cs.conn_at(0).id, other);
}
