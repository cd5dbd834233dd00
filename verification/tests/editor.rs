use flowforge::model::{ConnectError, NodeKind, Position};
use flowforge::workspace::FlowForgeApp;

fn pos(x_bits: u32, y_bits: u32) -> Position {
    Position { x_bits, y_bits }
}

#[test]
fn self_loop_click_creates_no_connection_and_returns_to_idle() {
    let mut app = FlowForgeApp::new();
    let a = app.add_node(NodeKind::Source { value: 1 }, pos(0, 0)).unwrap();
    app.output_connector_clicked(a);
    let r = app.input_connector_clicked(a);
    assert_eq!(r, Some(Err(ConnectError::SelfLoop)));
    assert_eq!(app.connection_count(), 0);
    assert_eq!(app.pending_source(), None);
}

#[test]
fn cancel_clears_the_pending_source() {
    let mut app = FlowForgeApp::new();
    let a = app.add_node(NodeKind::Source { value: 1 }, pos(0, 0)).unwrap();
    let b = app.add_node(NodeKind::Sink, pos(1, 0)).unwrap();
    app.output_connector_clicked(a);
    app.cancel_pending_link();
    let r = app.input_connector_clicked(b);
    assert_eq!(r, None);
    assert_eq!(app.connection_count(), 0);
    assert_eq!(app.pending_source(), None);
}

#[test]
fn input_click_while_idle_is_ignored() {
    let mut app = FlowForgeApp::new();
    let b = app.add_node(NodeKind::Sink, pos(0, 0)).unwrap();
    let r = app.input_connector_clicked(b);
    assert_eq!(r, None);
    assert_eq!(app.connection_count(), 0);
}

#[test]
fn latest_output_click_wins() {
    let mut app = FlowForgeApp::new();
    let a = app.add_node(NodeKind::Source { value: 1 }, pos(0, 0)).unwrap();
    let b = app.add_node(NodeKind::Source { value: 2 }, pos(1, 0)).unwrap();
    let c = app.add_node(NodeKind::Sink, pos(2, 0)).unwrap();
    app.output_connector_clicked(a);
    app.output_connector_clicked(b);
    assert_eq!(app.pending_source(), Some(b));
    let r = app.input_connector_clicked(c);
    assert!(matches!(r, Some(Ok(_))));
    assert_eq!(app.connection_count(), 1);
    let conn = app.connection_at(0);
    assert_eq!(conn.source, b);
    assert_eq!(conn.target, c);
}

#[test]
fn duplicate_connection_is_rejected() {
    let mut app = FlowForgeApp::new();
    let a = app.add_node(NodeKind::Source { value: 1 }, pos(0, 0)).unwrap();
    let b = app.add_node(NodeKind::Sink, pos(1, 0)).unwrap();
    app.output_connector_clicked(a);
    assert!(matches!(app.input_connector_clicked(b), Some(Ok(_))));
    app.output_connector_clicked(a);
    let r = app.input_connector_clicked(b);
    assert_eq!(r, Some(Err(ConnectError::Duplicate)));
    assert_eq!(app.connection_count(), 1);
}

#[test]
fn fan_out_and_fan_in_are_allowed() {
    let mut app = FlowForgeApp::new();
    let a = app.add_node(NodeKind::Source { value: 1 }, pos(0, 0)).unwrap();
    let b = app.add_node(NodeKind::Sink, pos(1, 0)).unwrap();
    let c = app.add_node(NodeKind::Sink, pos(2, 0)).unwrap();
    app.output_connector_clicked(a);
    assert!(matches!(app.input_connector_clicked(b), Some(Ok(_))));
    app.output_connector_clicked(a);
    assert!(matches!(app.input_connector_clicked(c), Some(Ok(_))));
    assert_eq!(app.connection_count(), 2);
}

#[test]
fn removing_a_node_cascades_to_incident_connections() {
    let mut app = FlowForgeApp::new();
    let a = app.add_node(NodeKind::Source { value: 1 }, pos(0, 0)).unwrap();
    let b = app.add_node(NodeKind::BinaryCombine, pos(1, 0)).unwrap();
    let c = app.add_node(NodeKind::Sink, pos(2, 0)).unwrap();
    app.output_connector_clicked(a);
    assert!(matches!(app.input_connector_clicked(b), Some(Ok(_))));
    app.output_connector_clicked(b);
    assert!(matches!(app.input_connector_clicked(c), Some(Ok(_))));
    assert_eq!(app.connection_count(), 2);
    app.remove_node(b);
    assert_eq!(app.node_count(), 2);
    assert_eq!(app.connection_count(), 0);
    // the next rebuild saw no dangling edge
    assert!(app.last_warnings().is_empty());
}

#[test]
fn removing_an_absent_node_is_a_no_op() {
    let mut app = FlowForgeApp::new();
    let a = app.add_node(NodeKind::Source { value: 1 }, pos(0, 0)).unwrap();
    app.remove_node(4242);
    assert_eq!(app.node_count(), 1);
    assert!(app.get_node(a).is_some());
}

#[test]
fn removing_a_connection_by_id() {
    let mut app = FlowForgeApp::new();
    let a = app.add_node(NodeKind::Source { value: 1 }, pos(0, 0)).unwrap();
    let b = app.add_node(NodeKind::Sink, pos(1, 0)).unwrap();
    app.output_connector_clicked(a);
    let id = match app.input_connector_clicked(b) {
        Some(Ok(id)) => id,
        other => panic!("expected a created connection, got {:?}", other),
    };
    app.remove_connection(id);
    assert_eq!(app.connection_count(), 0);
    // removing it again changes nothing
    app.remove_connection(id);
    assert_eq!(app.connection_count(), 0);
}

#[test]
fn node_ids_are_never_reused() {
    let mut app = FlowForgeApp::new();
    let a = app.add_node(NodeKind::Source { value: 1 }, pos(0, 0)).unwrap();
    app.remove_node(a);
    let b = app.add_node(NodeKind::Source { value: 2 }, pos(1, 0)).unwrap();
    assert_ne!(a, b);
}

#[test]
fn set_node_position_moves_only_the_addressed_node() {
    let mut app = FlowForgeApp::new();
    let a = app.add_node(NodeKind::Source { value: 1 }, pos(10, 20)).unwrap();
    let b = app.add_node(NodeKind::Sink, pos(30, 40)).unwrap();
    assert!(app.set_node_position(a, pos(11, 21)));
    assert!(!app.set_node_position(777, pos(0, 0)));
    assert_eq!(app.get_node(a).unwrap().position, pos(11, 21));
    assert_eq!(app.get_node(b).unwrap().position, pos(30, 40));
    assert_eq!(app.get_node(a).unwrap().kind, NodeKind::Source { value: 1 });
}
