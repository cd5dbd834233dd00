use flowforge::model::{Connection, Node, NodeKind, Position, Warning};
use flowforge::workspace::{Document, DocumentParseError, FlowForgeApp};

fn pos(x_bits: u32, y_bits: u32) -> Position {
    Position { x_bits, y_bits }
}

fn connect(app: &mut FlowForgeApp, source: u64, target: u64) {
    app.output_connector_clicked(source);
    let r = app.input_connector_clicked(target);
    assert!(matches!(r, Some(Ok(_))));
}

#[test]
fn save_then_load_reproduces_five_nodes_and_four_connections() {
    let mut app = FlowForgeApp::new();
    let a = app.add_node(NodeKind::Source { value: 3 }, pos(1, 2)).unwrap();
    let b = app.add_node(NodeKind::Source { value: 4 }, pos(3, 4)).unwrap();
    let c = app.add_node(NodeKind::BinaryCombine, pos(5, 6)).unwrap();
    let d = app.add_node(NodeKind::Sink, pos(7, 8)).unwrap();
    let e = app.add_node(NodeKind::Sink, pos(9, 10)).unwrap();
    connect(&mut app, a, c);
    connect(&mut app, b, c);
    connect(&mut app, c, d);
    connect(&mut app, c, e);

    let doc = app.save();
    let mut restored = FlowForgeApp::new();
    let warnings = restored.load(doc).expect("a saved document must load");
    assert!(warnings.is_empty());

    assert_eq!(restored.node_count(), 5);
    assert_eq!(restored.connection_count(), 4);
    for id in [a, b, c, d, e] {
        let orig = app.get_node(id).unwrap();
        let back = restored.get_node(id).unwrap();
        assert_eq!(orig.id, back.id);
        assert_eq!(orig.kind, back.kind);
        assert_eq!(orig.position, back.position);
    }
    let mut orig_pairs: Vec<(u64, u64)> = (0..app.connection_count())
        .map(|i| {
            let c = app.connection_at(i);
            (c.source, c.target)
        })
        .collect();
    let mut back_pairs: Vec<(u64, u64)> = (0..restored.connection_count())
        .map(|i| {
            let c = restored.connection_at(i);
            (c.source, c.target)
        })
        .collect();
    orig_pairs.sort();
    back_pairs.sort();
    assert_eq!(orig_pairs, back_pairs);
}

#[test]
fn loading_a_document_with_a_dangling_connection_drops_it_with_a_warning() {
    let doc = Document {
        nodes: vec![
            Node { id: 1, kind: NodeKind::Source { value: 7 }, position: pos(0, 0) },
            Node { id: 2, kind: NodeKind::Sink, position: pos(1, 1) },
        ],
        connections: vec![
            Connection { id: 10, source: 1, target: 2 },
            Connection { id: 11, source: 1, target: 99 },
        ],
    };
    let mut app = FlowForgeApp::new();
    let warnings = app.load(doc).expect("dangling connections are not fatal");
    assert_eq!(warnings, vec![Warning::GraphInconsistency { connection_id: 11 }]);
    assert_eq!(app.node_count(), 2);
    assert_eq!(app.connection_count(), 1);
    assert_eq!(app.connection_at(0).id, 10);
}

#[test]
fn loading_duplicate_node_ids_fails_and_leaves_the_model_untouched() {
    let mut app = FlowForgeApp::new();
    let kept = app.add_node(NodeKind::Source { value: 1 }, pos(0, 0)).unwrap();
    let doc = Document {
        nodes: vec![
            Node { id: 5, kind: NodeKind::Sink, position: pos(0, 0) },
            Node { id: 5, kind: NodeKind::Sink, position: pos(1, 1) },
        ],
        connections: vec![],
    };
    assert_eq!(app.load(doc), Err(DocumentParseError));
    assert_eq!(app.node_count(), 1);
    assert!(app.get_node(kept).is_some());
}

#[test]
fn loading_duplicate_connection_ids_fails() {
    let doc = Document {
        nodes: vec![
            Node { id: 1, kind: NodeKind::Source { value: 1 }, position: pos(0, 0) },
            Node { id: 2, kind: NodeKind::Sink, position: pos(1, 1) },
            Node { id: 3, kind: NodeKind::Sink, position: pos(2, 2) },
        ],
        connections: vec![
            Connection { id: 7, source: 1, target: 2 },
            Connection { id: 7, source: 1, target: 3 },
        ],
    };
    let mut app = FlowForgeApp::new();
    assert_eq!(app.load(doc), Err(DocumentParseError));
    assert_eq!(app.node_count(), 0);
}

#[test]
fn loading_a_self_loop_connection_fails() {
    let doc = Document {
        nodes: vec![Node { id: 1, kind: NodeKind::Sink, position: pos(0, 0) }],
        connections: vec![Connection { id: 7, source: 1, target: 1 }],
    };
    let mut app = FlowForgeApp::new();
    assert_eq!(app.load(doc), Err(DocumentParseError));
}

#[test]
fn loading_a_duplicate_endpoint_pair_fails() {
    let doc = Document {
        nodes: vec![
            Node { id: 1, kind: NodeKind::Source { value: 1 }, position: pos(0, 0) },
            Node { id: 2, kind: NodeKind::Sink, position: pos(1, 1) },
        ],
        connections: vec![
            Connection { id: 7, source: 1, target: 2 },
            Connection { id: 8, source: 1, target: 2 },
        ],
    };
    let mut app = FlowForgeApp::new();
    assert_eq!(app.load(doc), Err(DocumentParseError));
}

#[test]
fn ids_assigned_after_a_load_stay_fresh() {
    let doc = Document {
        nodes: vec![Node { id: 41, kind: NodeKind::Sink, position: pos(0, 0) }],
        connections: vec![],
    };
    let mut app = FlowForgeApp::new();
    app.load(doc).unwrap();
    let new_id = app.add_node(NodeKind::Source { value: 1 }, pos(1, 1)).unwrap();
    assert!(new_id > 41);
}

#[test]
fn positions_round_trip_bit_exactly() {
    let raw = 1.5f32.to_bits();
    let mut app = FlowForgeApp::new();
    let a = app.add_node(NodeKind::Sink, pos(raw, raw)).unwrap();
    let doc = app.save();
    let mut restored = FlowForgeApp::new();
    restored.load(doc).unwrap();
    let back = restored.get_node(a).unwrap().position;
    assert_eq!(f32::from_bits(back.x_bits), 1.5f32);
    assert_eq!(f32::from_bits(back.y_bits), 1.5f32);
}

#[test]
fn load_resets_the_link_editor_and_results() {
    let mut app = FlowForgeApp::new();
    let a = app.add_node(NodeKind::Source { value: 1 }, pos(0, 0)).unwrap();
    app.run_evaluation();
    assert!(app.result_of(a).is_some());
    app.output_connector_clicked(a);
    let doc = Document { nodes: vec![], connections: vec![] };
    app.load(doc).unwrap();
    assert_eq!(app.pending_source(), None);
    assert_eq!(app.result_of(a), None);
    assert_eq!(app.node_count(), 0);
}
