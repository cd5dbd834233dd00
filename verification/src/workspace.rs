//! The assembled editor core: the two stores, the derived graph index, the
//! link editor, and the result map of the last evaluation run, behind the
//! boundary operations the surrounding UI or CLI shell drives. Every mutation
//! rebuilds the graph index, so no consumer ever observes a stale one.

use vstd::prelude::*;
use crate::eval::{evaluation_post, kinds_of, Outcome, ResultMap};
use crate::graph::GraphIndex;
use crate::link::{LinkEditor, LinkState};
use crate::model::{
    add_transition, dangling_pred, dangling_warnings, doc_conns_wf, doc_nodes_wf, keep,
    keep_other_conn, keep_other_node, keep_unrelated, lemma_keep_all, lemma_keep_member,
    lemma_keep_none, lemma_keep_retains, live_conn, live_conns, live_pred, node_id_fn, ConnectError,
    Connection, ConnectionStore, Node, NodeKind, NodeStore, Position, Warning,
};

verus! {

/// A structured persistence document: the serializable snapshot of the
/// model. Only persisted state appears here — never the ephemeral
/// interaction state of the link editor.
pub struct Document {
    pub nodes: Vec<Node>,
    pub connections: Vec<Connection>,
}

/// A structurally malformed document was rejected; the load aborted and the
/// previously open in-memory model is untouched.
#[derive(Clone, Copy, Debug, PartialEq, Eq, Structural)]
pub struct DocumentParseError;

/// The workflow editor core, as one value.
pub struct FlowForgeApp {
    nodes: NodeStore,
    connections: ConnectionStore,
    graph: GraphIndex,
    link: LinkEditor,
    results: ResultMap,
    warnings: Vec<Warning>,
}

impl FlowForgeApp {
    pub closed spec fn node_store(self) -> NodeStore {
        self.nodes
    }

    pub closed spec fn conn_store(self) -> ConnectionStore {
        self.connections
    }

    pub closed spec fn graph_spec(self) -> GraphIndex {
        self.graph
    }

    pub closed spec fn link_state(self) -> LinkState {
        self.link.state_spec()
    }

    pub closed spec fn results_spec(self) -> ResultMap {
        self.results
    }

    /// The warnings reported by the latest graph rebuild.
    pub closed spec fn warnings_seq(self) -> Seq<Warning> {
        self.warnings@
    }

    /// The stores are well-formed and the graph index is exactly the one the
    /// current stores derive.
    pub open spec fn wf(self) -> bool {
        &&& self.node_store().wf()
        &&& self.conn_store().wf()
        &&& self.graph_spec().wf()
        &&& self.graph_spec().matches(self.node_store(), self.conn_store())
    }

    /// Rebuilds the graph index from the current stores.
    fn rebuild(&mut self)
        requires
            old(self).node_store().wf(),
            old(self).conn_store().wf(),
        ensures
            final(self).node_store() == old(self).node_store(),
            final(self).conn_store() == old(self).conn_store(),
            final(self).link_state() == old(self).link_state(),
            final(self).results_spec() == old(self).results_spec(),
            final(self).wf(),
            final(self).warnings_seq() == dangling_warnings(
                old(self).node_store().ids(),
                old(self).conn_store().conns_seq(),
            ),
    {
        let (g, ws) = GraphIndex::build(&self.nodes, &self.connections);
        self.graph = g;
        self.warnings = ws;
    }

    /// An empty editor: no nodes, no connections, idle link editor, no
    /// results yet.
    pub fn new() -> (r: FlowForgeApp)
        ensures
            r.wf(),
            r.node_store().nodes_seq() == Seq::<Node>::empty(),
            r.conn_store().conns_seq() == Seq::<Connection>::empty(),
            r.link_state() == LinkState::Idle,
            r.results_spec().ids_seq() == Seq::<u64>::empty(),
            r.warnings_seq() == Seq::<Warning>::empty(),
    {
        let nodes = NodeStore::new();
        let connections = ConnectionStore::new();
        let (graph, warnings) = GraphIndex::build(&nodes, &connections);
        proof {
            assert(warnings@ =~= Seq::<Warning>::empty());
        }
        FlowForgeApp {
            nodes,
            connections,
            graph,
            link: LinkEditor::new(),
            results: ResultMap::new_empty(),
            warnings,
        }
    }

    /// Creates a node with a fresh id; fails only when the identifier space
    /// is exhausted.
    pub fn add_node(&mut self, kind: NodeKind, position: Position) -> (r: Option<u64>)
        requires
            old(self).wf(),
        ensures
            final(self).wf(),
            final(self).conn_store() == old(self).conn_store(),
            final(self).link_state() == old(self).link_state(),
            final(self).results_spec() == old(self).results_spec(),
            r is Some <==> old(self).node_store().next_id_spec() < u64::MAX,
            r is None ==> final(self).node_store() == old(self).node_store(),
            r matches Some(id) ==> id == old(self).node_store().next_id_spec() && final(self).node_store().nodes_seq() == old(self).node_store().nodes_seq().push(
                (Node { id, kind, position }),
            ) && final(self).node_store().next_id_spec() == id + 1,
    {
        let r = self.nodes.add(kind, position);
        self.rebuild();
        r
    }

    /// Looks a node up by id.
    pub fn get_node(&self, id: u64) -> (r: Option<Node>)
        requires
            self.wf(),
        ensures
            r is Some <==> self.node_store().contains_id(id),
            r matches Some(n) ==> n == self.node_store().node_of(id),
    {
        self.nodes.get(id)
    }

    pub fn node_count(&self) -> (r: usize)
        ensures
            r == self.node_store().nodes_seq().len(),
    {
        self.nodes.node_count()
    }

    pub fn connection_count(&self) -> (r: usize)
        ensures
            r == self.conn_store().conns_seq().len(),
    {
        self.connections.conn_count()
    }

    pub fn connection_at(&self, i: usize) -> (r: Connection)
        requires
            i < self.conn_store().conns_seq().len(),
        ensures
            r == self.conn_store().conns_seq()[i as int],
    {
        self.connections.conn_at(i)
    }

    /// Moves a node; the graph index needs no rebuild, as positions are
    /// opaque to it.
    pub fn set_node_position(&mut self, id: u64, position: Position) -> (r: bool)
        requires
            old(self).wf(),
        ensures
            final(self).wf(),
            final(self).conn_store() == old(self).conn_store(),
            final(self).link_state() == old(self).link_state(),
            final(self).results_spec() == old(self).results_spec(),
            final(self).node_store().ids() == old(self).node_store().ids(),
            r <==> old(self).node_store().contains_id(id),
            r ==> final(self).node_store().nodes_seq() == old(self).node_store().nodes_seq().update(
                crate::model::find_index(old(self).node_store().ids(), id),
                (Node { id, kind: old(self).node_store().node_of(id).kind, position }),
            ),
            !r ==> final(self).node_store().nodes_seq() == old(self).node_store().nodes_seq(),
            final(self).node_store().next_id_spec() == old(self).node_store().next_id_spec(),
    {
        let r = self.nodes.set_position(id, position);
        r
    }

    /// Deletes a node and cascade-deletes every connection touching it;
    /// deleting an absent id is a no-op.
    pub fn remove_node(&mut self, id: u64)
        requires
            old(self).wf(),
        ensures
            final(self).wf(),
            final(self).link_state() == old(self).link_state(),
            final(self).results_spec() == old(self).results_spec(),
            final(self).node_store().nodes_seq() == keep(
                old(self).node_store().nodes_seq(),
                keep_other_node(id),
            ),
            final(self).node_store().next_id_spec() == old(self).node_store().next_id_spec(),
            final(self).conn_store().conns_seq() == keep(
                old(self).conn_store().conns_seq(),
                keep_unrelated(id),
            ),
            final(self).conn_store().next_id_spec() == old(self).conn_store().next_id_spec(),
    {
        self.nodes.remove(id);
        self.connections.remove_incident(id);
        self.rebuild();
    }

    /// Deletes one connection by id; deleting an absent id is a no-op.
    pub fn remove_connection(&mut self, id: u64)
        requires
            old(self).wf(),
        ensures
            final(self).wf(),
            final(self).node_store() == old(self).node_store(),
            final(self).link_state() == old(self).link_state(),
            final(self).results_spec() == old(self).results_spec(),
            final(self).conn_store().conns_seq() == keep(
                old(self).conn_store().conns_seq(),
                keep_other_conn(id),
            ),
            final(self).conn_store().next_id_spec() == old(self).conn_store().next_id_spec(),
    {
        self.connections.remove(id);
        self.rebuild();
    }

    /// An output connector was clicked: record (or replace) the pending
    /// source. No store changes.
    pub fn output_connector_clicked(&mut self, node_id: u64)
        requires
            old(self).wf(),
        ensures
            final(self).wf(),
            final(self).node_store() == old(self).node_store(),
            final(self).conn_store() == old(self).conn_store(),
            final(self).results_spec() == old(self).results_spec(),
            final(self).link_state() == (LinkState::PendingSource { source: node_id }),
    {
        self.link.output_connector_clicked(node_id);
    }

    /// A click elsewhere or an escape: discard the pending source without
    /// creating anything.
    pub fn cancel_pending_link(&mut self)
        requires
            old(self).wf(),
        ensures
            final(self).wf(),
            final(self).node_store() == old(self).node_store(),
            final(self).conn_store() == old(self).conn_store(),
            final(self).results_spec() == old(self).results_spec(),
            final(self).link_state() == LinkState::Idle,
    {
        self.link.cancel_pending_link();
    }

    /// An input connector was clicked: if a source is pending, attempt the
    /// connection (the store may reject it); either way the editor returns
    /// to idle. While idle the click is ignored.
    pub fn input_connector_clicked(&mut self, target: u64) -> (r: Option<
        Result<u64, ConnectError>,
    >)
        requires
            old(self).wf(),
        ensures
            final(self).wf(),
            final(self).node_store() == old(self).node_store(),
            final(self).results_spec() == old(self).results_spec(),
            final(self).link_state() == LinkState::Idle,
            old(self).link_state() == LinkState::Idle ==> r is None && final(self).conn_store()
                == old(self).conn_store(),
            old(self).link_state() matches LinkState::PendingSource { source } ==> (r matches Some(
                res,
            ) && add_transition(old(self).conn_store(), final(self).conn_store(), source, target, res)),
    {
        let r = self.link.input_connector_clicked(&mut self.connections, target);
        self.rebuild();
        r
    }

    /// The pending source, if an output connector was clicked.
    pub fn pending_source(&self) -> (r: Option<u64>)
        ensures
            r == match self.link_state() {
                LinkState::Idle => None::<u64>,
                LinkState::PendingSource { source } => Some(source),
            },
    {
        self.link.pending_source()
    }

    /// The warnings of the latest graph rebuild.
    pub fn last_warnings(&self) -> (r: &Vec<Warning>)
        ensures
            r@ == self.warnings_seq(),
    {
        &self.warnings
    }

    /// Runs one evaluation over the current snapshot and keeps its result
    /// map; the previous map is replaced wholesale, never patched.
    pub fn run_evaluation(&mut self)
        requires
            old(self).wf(),
        ensures
            final(self).wf(),
            final(self).node_store() == old(self).node_store(),
            final(self).conn_store() == old(self).conn_store(),
            final(self).link_state() == old(self).link_state(),
            final(self).warnings_seq() == old(self).warnings_seq(),
            final(self).graph_spec() == old(self).graph_spec(),
            final(self).results_spec().wf(),
            final(self).results_spec().ids_seq() == old(self).node_store().ids(),
            evaluation_post(
                kinds_of(old(self).node_store()),
                old(self).graph_spec().preds_view(),
                final(self).results_spec().outcomes(),
            ),
    {
        let r = crate::eval::run(&self.nodes, &self.graph);
        self.results = r;
    }

    /// The outcome the last run recorded for `id`, if any.
    pub fn result_of(&self, id: u64) -> (r: Option<Outcome>)
        requires
            self.results_spec().wf(),
        ensures
            r is Some <==> self.results_spec().contains_id(id),
            r matches Some(o) ==> o == self.results_spec().outcome_of(id),
    {
        self.results.get(id)
    }

    /// Snapshots the persisted model into a document. The link editor's
    /// ephemeral state is deliberately not part of it.
    pub fn save(&self) -> (doc: Document)
        ensures
            doc.nodes@ == self.node_store().nodes_seq(),
            doc.connections@ == self.conn_store().conns_seq(),
    {
        Document { nodes: self.nodes.to_vec(), connections: self.connections.to_vec() }
    }

    /// Replaces the model with a document's content. A structurally
    /// malformed document is rejected and the open model is left untouched;
    /// a dangling connection is dropped with a warning, matching the
    /// behavior of live editing.
    pub fn load(&mut self, doc: Document) -> (r: Result<Vec<Warning>, DocumentParseError>)
        requires
            old(self).wf(),
        ensures
            final(self).wf(),
            r is Err <==> !(doc_nodes_wf(doc.nodes@) && doc_conns_wf(doc.connections@)),
            r is Err ==> final(self).node_store() == old(self).node_store() && final(self).conn_store() == old(self).conn_store() && final(self).link_state() == old(self).link_state() && final(self).results_spec() == old(self).results_spec() && final(self).warnings_seq() == old(self).warnings_seq() && final(self).graph_spec() == old(self).graph_spec(),
            r matches Ok(ws) ==> {
                &&& final(self).node_store().nodes_seq() == doc.nodes@
                &&& final(self).conn_store().conns_seq() == live_conns(
                    doc.nodes@.map_values(node_id_fn()),
                    doc.connections@,
                )
                &&& ws@ == dangling_warnings(doc.nodes@.map_values(node_id_fn()), doc.connections@)
                &&& final(self).link_state() == LinkState::Idle
                &&& final(self).results_spec().ids_seq() == Seq::<u64>::empty()
            },
    {
        let Document { nodes, connections } = doc;
        let ns = match NodeStore::from_nodes(nodes) {
            Some(ns) => ns,
            None => {
                return Err(DocumentParseError);
            },
        };
        let mut cs = match ConnectionStore::from_connections(connections) {
            Some(cs) => cs,
            None => {
                return Err(DocumentParseError);
            },
        };
        let ws = cs.remove_dangling(&ns);
        self.nodes = ns;
        self.connections = cs;
        self.link = LinkEditor::new();
        self.results = ResultMap::new_empty();
        self.rebuild();
        Ok(ws)
    }
}

/// A saved well-formed model always loads back: its node and connection
/// lists pass document validation, and when no connection dangles, the
/// connection list survives the load unchanged and no warning is reported —
/// so ids, kinds, parameters, positions, and endpoint pairs all round-trip.
pub proof fn lemma_save_load_round_trip(a: FlowForgeApp)
    requires
        a.wf(),
    ensures
        doc_nodes_wf(a.node_store().nodes_seq()),
        doc_conns_wf(a.conn_store().conns_seq()),
        (forall|i: int|
            0 <= i < a.conn_store().conns_seq().len() ==> live_conn(
                a.node_store().ids(),
                #[trigger] a.conn_store().conns_seq()[i],
            )) ==> live_conns(a.node_store().ids(), a.conn_store().conns_seq())
            == a.conn_store().conns_seq() && dangling_warnings(
            a.node_store().ids(),
            a.conn_store().conns_seq(),
        ) == Seq::<Warning>::empty(),
{
    let ids = a.node_store().ids();
    let conns = a.conn_store().conns_seq();
    if forall|i: int| 0 <= i < conns.len() ==> live_conn(ids, #[trigger] conns[i]) {
        assert forall|i: int| 0 <= i < conns.len() implies live_pred(ids)(#[trigger] conns[i]) by {
            assert(live_conn(ids, conns[i]));
        }
        lemma_keep_all(conns, live_pred(ids));
        assert forall|i: int|
            0 <= i < conns.len() implies !dangling_pred(ids)(#[trigger] conns[i]) by {
            assert(live_conn(ids, conns[i]));
        }
        lemma_keep_none(conns, dangling_pred(ids));
        assert(dangling_warnings(ids, conns) =~= Seq::<Warning>::empty());
    }
}

/// Cascade deletion never leaves a dangling edge: when every connection was
/// live, every connection that survives the removal of a node is still live
/// against the surviving nodes, and the next graph build reports no warning.
pub proof fn lemma_cascade_no_dangling(nodes: Seq<Node>, conns: Seq<Connection>, id: u64)
    requires
        forall|i: int|
            0 <= i < conns.len() ==> live_conn(
                nodes.map_values(node_id_fn()),
                #[trigger] conns[i],
            ),
    ensures
        forall|i: int|
            0 <= i < keep(conns, keep_unrelated(id)).len() ==> live_conn(
                keep(nodes, keep_other_node(id)).map_values(node_id_fn()),
                #[trigger] keep(conns, keep_unrelated(id))[i],
            ),
        dangling_warnings(
            keep(nodes, keep_other_node(id)).map_values(node_id_fn()),
            keep(conns, keep_unrelated(id)),
        ) == Seq::<Warning>::empty(),
{
    let old_ids = nodes.map_values(node_id_fn());
    let new_nodes = keep(nodes, keep_other_node(id));
    let new_ids = new_nodes.map_values(node_id_fn());
    let new_conns = keep(conns, keep_unrelated(id));
    lemma_keep_member(conns, keep_unrelated(id));
    lemma_keep_retains(nodes, keep_other_node(id));
    assert forall|i: int|
        0 <= i < new_conns.len() implies live_conn(new_ids, #[trigger] new_conns[i]) by {
        let c = new_conns[i];
        assert(keep_unrelated(id)(c));
        let j = choose|j: int| 0 <= j < conns.len() && conns[j] == c;
        assert(live_conn(old_ids, c));
        let ms = choose|ms: int| 0 <= ms < old_ids.len() && old_ids[ms] == c.source;
        assert(nodes[ms].id == c.source);
        assert(keep_other_node(id)(nodes[ms]));
        assert(new_nodes.contains(nodes[ms]));
        let ks = choose|ks: int| 0 <= ks < new_nodes.len() && new_nodes[ks] == nodes[ms];
        assert(new_ids[ks] == c.source);
        assert(new_ids.contains(c.source));
        let mt = choose|mt: int| 0 <= mt < old_ids.len() && old_ids[mt] == c.target;
        assert(nodes[mt].id == c.target);
        assert(keep_other_node(id)(nodes[mt]));
        assert(new_nodes.contains(nodes[mt]));
        let kt = choose|kt: int| 0 <= kt < new_nodes.len() && new_nodes[kt] == nodes[mt];
        assert(new_ids[kt] == c.target);
        assert(new_ids.contains(c.target));
    }
    assert forall|i: int|
        0 <= i < new_conns.len() implies !dangling_pred(new_ids)(#[trigger] new_conns[i]) by {
        assert(live_conn(new_ids, new_conns[i]));
    }
    lemma_keep_none(new_conns, dangling_pred(new_ids));
    assert(dangling_warnings(new_ids, new_conns) =~= Seq::<Warning>::empty());
}

} // verus!
