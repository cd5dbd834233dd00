use flowforge::eval::Outcome;
use flowforge::model::{NodeKind, Position};
use flowforge::workspace::FlowForgeApp;

fn pos(x_bits: u32, y_bits: u32) -> Position {
    Position { x_bits, y_bits }
}

fn connect(app: &mut FlowForgeApp, source: u64, target: u64) {
    app.output_connector_clicked(source);
    let r = app.input_connector_clicked(target);
    assert!(matches!(r, Some(Ok(_))));
}

#[test]
fn source_combine_sink_computes_sum() {
    let mut app = FlowForgeApp::new();
    let a = app.add_node(NodeKind::Source { value: 3 }, pos(0, 0)).unwrap();
    let b = app.add_node(NodeKind::Source { value: 4 }, pos(1, 0)).unwrap();
    let c = app.add_node(NodeKind::BinaryCombine, pos(2, 0)).unwrap();
    let d = app.add_node(NodeKind::Sink, pos(3, 0)).unwrap();
    connect(&mut app, a, c);
    connect(&mut app, b, c);
    connect(&mut app, c, d);
    app.run_evaluation();
    assert_eq!(app.result_of(a), Some(Outcome::Value { value: 3 }));
    assert_eq!(app.result_of(b), Some(Outcome::Value { value: 4 }));
    assert_eq!(app.result_of(c), Some(Outcome::Value { value: 7 }));
    assert_eq!(app.result_of(d), Some(Outcome::Value { value: 7 }));
}

#[test]
fn sink_with_no_input_reports_no_input_and_others_still_evaluate() {
    let mut app = FlowForgeApp::new();
    let lonely_sink = app.add_node(NodeKind::Sink, pos(0, 0)).unwrap();
    let a = app.add_node(NodeKind::Source { value: 5 }, pos(1, 0)).unwrap();
    let d = app.add_node(NodeKind::Sink, pos(2, 0)).unwrap();
    connect(&mut app, a, d);
    app.run_evaluation();
    assert_eq!(app.result_of(lonely_sink), Some(Outcome::NoInput));
    assert_eq!(app.result_of(a), Some(Outcome::Value { value: 5 }));
    assert_eq!(app.result_of(d), Some(Outcome::Value { value: 5 }));
}

#[test]
fn sink_with_two_inputs_reports_ambiguous_input() {
    let mut app = FlowForgeApp::new();
    let a = app.add_node(NodeKind::Source { value: 1 }, pos(0, 0)).unwrap();
    let b = app.add_node(NodeKind::Source { value: 2 }, pos(1, 0)).unwrap();
    let d = app.add_node(NodeKind::Sink, pos(2, 0)).unwrap();
    connect(&mut app, a, d);
    connect(&mut app, b, d);
    app.run_evaluation();
    assert_eq!(app.result_of(d), Some(Outcome::AmbiguousInput));
}

#[test]
fn cyclic_graph_terminates_and_marks_cycle_nodes() {
    let mut app = FlowForgeApp::new();
    let a = app.add_node(NodeKind::BinaryCombine, pos(0, 0)).unwrap();
    let b = app.add_node(NodeKind::BinaryCombine, pos(1, 0)).unwrap();
    let d = app.add_node(NodeKind::Sink, pos(2, 0)).unwrap();
    let independent = app.add_node(NodeKind::Source { value: 9 }, pos(3, 0)).unwrap();
    connect(&mut app, a, b);
    connect(&mut app, b, a);
    connect(&mut app, b, d);
    app.run_evaluation();
    assert_eq!(app.result_of(a), Some(Outcome::CycleDetected));
    assert_eq!(app.result_of(b), Some(Outcome::CycleDetected));
    assert_eq!(app.result_of(d), Some(Outcome::CycleDetected));
    assert_eq!(app.result_of(independent), Some(Outcome::Value { value: 9 }));
}

#[test]
fn self_cycle_through_stores_is_detected() {
    // the editor rejects self-loops, but a two-node cycle feeding a source
    // still leaves the source itself evaluable
    let mut app = FlowForgeApp::new();
    let s = app.add_node(NodeKind::Source { value: 2 }, pos(0, 0)).unwrap();
    let a = app.add_node(NodeKind::BinaryCombine, pos(1, 0)).unwrap();
    let b = app.add_node(NodeKind::BinaryCombine, pos(2, 0)).unwrap();
    connect(&mut app, s, a);
    connect(&mut app, a, b);
    connect(&mut app, b, a);
    app.run_evaluation();
    assert_eq!(app.result_of(s), Some(Outcome::Value { value: 2 }));
    assert_eq!(app.result_of(a), Some(Outcome::CycleDetected));
    assert_eq!(app.result_of(b), Some(Outcome::CycleDetected));
}

#[test]
fn combine_with_one_input_reports_insufficient_inputs() {
    let mut app = FlowForgeApp::new();
    let a = app.add_node(NodeKind::Source { value: 1 }, pos(0, 0)).unwrap();
    let c = app.add_node(NodeKind::BinaryCombine, pos(1, 0)).unwrap();
    connect(&mut app, a, c);
    app.run_evaluation();
    assert_eq!(app.result_of(c), Some(Outcome::InsufficientInputs { need: 2, got: 1 }));
}

#[test]
fn combine_with_three_inputs_reports_insufficient_inputs() {
    let mut app = FlowForgeApp::new();
    let a = app.add_node(NodeKind::Source { value: 1 }, pos(0, 0)).unwrap();
    let b = app.add_node(NodeKind::Source { value: 2 }, pos(1, 0)).unwrap();
    let c = app.add_node(NodeKind::Source { value: 3 }, pos(2, 0)).unwrap();
    let m = app.add_node(NodeKind::BinaryCombine, pos(3, 0)).unwrap();
    connect(&mut app, a, m);
    connect(&mut app, b, m);
    connect(&mut app, c, m);
    app.run_evaluation();
    assert_eq!(app.result_of(m), Some(Outcome::InsufficientInputs { need: 2, got: 3 }));
}

#[test]
fn failed_predecessor_propagates_as_upstream_error() {
    let mut app = FlowForgeApp::new();
    let c = app.add_node(NodeKind::BinaryCombine, pos(0, 0)).unwrap();
    let d = app.add_node(NodeKind::Sink, pos(1, 0)).unwrap();
    connect(&mut app, c, d);
    app.run_evaluation();
    assert_eq!(app.result_of(c), Some(Outcome::InsufficientInputs { need: 2, got: 0 }));
    assert_eq!(app.result_of(d), Some(Outcome::UpstreamError));
}

#[test]
fn upstream_error_propagates_through_combine() {
    let mut app = FlowForgeApp::new();
    let bad = app.add_node(NodeKind::Sink, pos(0, 0)).unwrap();
    let a = app.add_node(NodeKind::Source { value: 1 }, pos(1, 0)).unwrap();
    let m = app.add_node(NodeKind::BinaryCombine, pos(2, 0)).unwrap();
    connect(&mut app, bad, m);
    connect(&mut app, a, m);
    app.run_evaluation();
    assert_eq!(app.result_of(bad), Some(Outcome::NoInput));
    assert_eq!(app.result_of(m), Some(Outcome::UpstreamError));
}

#[test]
fn combine_wraps_on_overflow() {
    let mut app = FlowForgeApp::new();
    let a = app.add_node(NodeKind::Source { value: i64::MAX }, pos(0, 0)).unwrap();
    let b = app.add_node(NodeKind::Source { value: 1 }, pos(1, 0)).unwrap();
    let c = app.add_node(NodeKind::BinaryCombine, pos(2, 0)).unwrap();
    connect(&mut app, a, c);
    connect(&mut app, b, c);
    app.run_evaluation();
    assert_eq!(app.result_of(c), Some(Outcome::Value { value: i64::MIN }));
}

#[test]
fn combine_adds_negative_values() {
    let mut app = FlowForgeApp::new();
    let a = app.add_node(NodeKind::Source { value: -10 }, pos(0, 0)).unwrap();
    let b = app.add_node(NodeKind::Source { value: 4 }, pos(1, 0)).unwrap();
    let c = app.add_node(NodeKind::BinaryCombine, pos(2, 0)).unwrap();
    connect(&mut app, a, c);
    connect(&mut app, b, c);
    app.run_evaluation();
    assert_eq!(app.result_of(c), Some(Outcome::Value { value: -6 }));
}

#[test]
fn repeated_runs_on_unchanged_input_are_identical() {
    let mut app = FlowForgeApp::new();
    let a = app.add_node(NodeKind::Source { value: 3 }, pos(0, 0)).unwrap();
    let b = app.add_node(NodeKind::Source { value: 4 }, pos(1, 0)).unwrap();
    let c = app.add_node(NodeKind::BinaryCombine, pos(2, 0)).unwrap();
    let d = app.add_node(NodeKind::Sink, pos(3, 0)).unwrap();
    let lonely = app.add_node(NodeKind::Sink, pos(4, 0)).unwrap();
    connect(&mut app, a, c);
    connect(&mut app, b, c);
    connect(&mut app, c, d);
    app.run_evaluation();
    let first: Vec<Option<Outcome>> =
        [a, b, c, d, lonely].iter().map(|id| app.result_of(*id)).collect();
    app.run_evaluation();
    let second: Vec<Option<Outcome>> =
        [a, b, c, d, lonely].iter().map(|id| app.result_of(*id)).collect();
    assert_eq!(first, second);
}

#[test]
fn evaluation_covers_every_node() {
    let mut app = FlowForgeApp::new();
    let a = app.add_node(NodeKind::Source { value: 1 }, pos(0, 0)).unwrap();
    let b = app.add_node(NodeKind::Sink, pos(1, 0)).unwrap();
    let c = app.add_node(NodeKind::BinaryCombine, pos(2, 0)).unwrap();
    app.run_evaluation();
    assert!(app.result_of(a).is_some());
    assert!(app.result_of(b).is_some());
    assert!(app.result_of(c).is_some());
    assert_eq!(app.result_of(999), None);
}
