//! The persisted data model: nodes, connections, and the two stores that own
//! them, together with the error and warning taxonomy of the editing layer.

use vstd::prelude::*;

verus! {

/// A display position, owned by the UI layer and opaque to the evaluator.
/// The coordinates are carried as the raw bit patterns of the UI layer's
/// floating-point values, so documents round-trip them exactly.
#[derive(Clone, Copy, Debug, PartialEq, Eq, Structural)]
pub struct Position {
    pub x_bits: u32,
    pub y_bits: u32,
}

/// The closed set of node kinds, with their kind-specific parameters.
#[derive(Clone, Copy, Debug, PartialEq, Eq, Structural)]
pub enum NodeKind {
    /// Emits its stored constant; requires no inputs.
    Source { value: i64 },
    /// Adds the values of exactly two predecessors.
    BinaryCombine,
    /// Passes through the value of exactly one predecessor.
    Sink,
}

/// A typed unit of computation in the workflow graph.
#[derive(Clone, Copy, Debug, PartialEq, Eq, Structural)]
pub struct Node {
    pub id: u64,
    pub kind: NodeKind,
    pub position: Position,
}

/// A directed edge from the output of `source` to the input of `target`.
#[derive(Clone, Copy, Debug, PartialEq, Eq, Structural)]
pub struct Connection {
    pub id: u64,
    pub source: u64,
    pub target: u64,
}

/// Why a connection request was rejected; the stores are left unchanged.
#[derive(Clone, Copy, Debug, PartialEq, Eq, Structural)]
pub enum ConnectError {
    /// The requested source and target are the same node.
    SelfLoop,
    /// A connection with the same (source, target) pair already exists.
    Duplicate,
    /// The store has run out of fresh connection identifiers.
    IdExhausted,
}

/// A recoverable structural warning: editing continues after it is reported.
#[derive(Clone, Copy, Debug, PartialEq, Eq, Structural)]
pub enum Warning {
    /// A connection with a missing endpoint was dropped.
    GraphInconsistency { connection_id: u64 },
}

/// First index at which `x` occurs in `s`, or `-1` if it does not occur.
pub open spec fn find_index<A>(s: Seq<A>, x: A) -> int
    decreases s.len(),
{
    if s.len() == 0 {
        -1
    } else if s[0] == x {
        0
    } else if find_index(s.drop_first(), x) < 0 {
        -1
    } else {
        1 + find_index(s.drop_first(), x)
    }
}

pub proof fn lemma_find_index_props<A>(s: Seq<A>, x: A)
    ensures
        s.contains(x) ==> 0 <= find_index(s, x) < s.len() && s[find_index(s, x)] == x,
        !s.contains(x) ==> find_index(s, x) == -1,
    decreases s.len(),
{
    if s.len() > 0 && s[0] != x {
        let rest = s.drop_first();
        lemma_find_index_props(rest, x);
        if s.contains(x) {
            let i = choose|i: int| 0 <= i < s.len() && s[i] == x;
            assert(rest[i - 1] == x);
            assert(rest.contains(x));
        }
        if rest.contains(x) {
            let j = choose|j: int| 0 <= j < rest.len() && rest[j] == x;
            assert(s[j + 1] == x);
            assert(s.contains(x));
        }
    }
}

/// In a duplicate-free sequence, `find_index` returns the one position of `x`.
pub proof fn lemma_find_index_unique<A>(s: Seq<A>, x: A, i: int)
    requires
        s.no_duplicates(),
        0 <= i < s.len(),
        s[i] == x,
    ensures
        find_index(s, x) == i,
{
    assert(s.contains(x));
    lemma_find_index_props(s, x);
    let j = find_index(s, x);
    assert(s[j] == x);
    if i != j {
        assert(s[i] != s[j]);
    }
}

/// The subsequence of `s` whose elements satisfy `p`, in order.
pub open spec fn keep<A>(s: Seq<A>, p: spec_fn(A) -> bool) -> Seq<A>
    decreases s.len(),
{
    if s.len() == 0 {
        Seq::<A>::empty()
    } else if p(s.last()) {
        keep(s.drop_last(), p).push(s.last())
    } else {
        keep(s.drop_last(), p)
    }
}

/// Selection distributes over `push`.
pub proof fn lemma_keep_push<A>(s: Seq<A>, x: A, p: spec_fn(A) -> bool)
    ensures
        keep(s.push(x), p) == if p(x) {
            keep(s, p).push(x)
        } else {
            keep(s, p)
        },
{
    assert(s.push(x).drop_last() =~= s);
    assert(s.push(x).last() == x);
}

/// Every selected element satisfies the predicate and occurs in the original.
pub proof fn lemma_keep_member<A>(s: Seq<A>, p: spec_fn(A) -> bool)
    ensures
        keep(s, p).len() <= s.len(),
        forall|i: int|
            0 <= i < keep(s, p).len() ==> p(#[trigger] keep(s, p)[i]) && exists|j: int|
                0 <= j < s.len() && s[j] == keep(s, p)[i],
    decreases s.len(),
{
    if s.len() > 0 {
        let prefix = s.drop_last();
        lemma_keep_member(prefix, p);
        assert forall|i: int|
            0 <= i < keep(s, p).len() implies p(#[trigger] keep(s, p)[i]) && exists|j: int|
            0 <= j < s.len() && s[j] == keep(s, p)[i] by {
            if p(s.last()) && i == keep(s, p).len() - 1 {
                assert(s[s.len() - 1] == keep(s, p)[i]);
            } else {
                assert(keep(s, p)[i] == keep(prefix, p)[i]);
                let j = choose|j: int| 0 <= j < prefix.len() && prefix[j] == keep(prefix, p)[i];
                assert(s[j] == keep(s, p)[i]);
            }
        }
    }
}

/// Selection keeps a duplicate-free image duplicate-free, for any view `f` of
/// the elements.
pub proof fn lemma_keep_map_no_dup<A, B>(s: Seq<A>, p: spec_fn(A) -> bool, f: spec_fn(A) -> B)
    requires
        s.map_values(f).no_duplicates(),
    ensures
        keep(s, p).map_values(f).no_duplicates(),
    decreases s.len(),
{
    if s.len() > 0 {
        let prefix = s.drop_last();
        let sf = s.map_values(f);
        let pf = prefix.map_values(f);
        assert(pf =~= sf.drop_last());
        assert forall|i: int, j: int|
            0 <= i < pf.len() && 0 <= j < pf.len() && i != j implies #[trigger] pf[i]
            != #[trigger] pf[j] by {
            assert(sf[i] != sf[j]);
        }
        lemma_keep_map_no_dup(prefix, p, f);
        if p(s.last()) {
            let k = keep(prefix, p);
            let kf = k.map_values(f);
            let gf = keep(s, p).map_values(f);
            assert(gf =~= kf.push(f(s.last())));
            lemma_keep_member(prefix, p);
            assert forall|i: int, j: int|
                0 <= i < gf.len() && 0 <= j < gf.len() && i != j implies #[trigger] gf[i]
                != #[trigger] gf[j] by {
                if i < gf.len() - 1 && j < gf.len() - 1 {
                    assert(kf[i] != kf[j]);
                } else {
                    let a = if i < j { i } else { j };
                    if a < gf.len() - 1 {
                        let m = choose|m: int| 0 <= m < prefix.len() && prefix[m] == k[a];
                        assert(sf[m] == f(k[a]));
                        assert(sf[m] != sf[s.len() - 1]);
                        assert(kf[a] == f(k[a]));
                    }
                }
            }
        }
    }
}

/// A selection whose predicate holds everywhere is the whole sequence.
pub proof fn lemma_keep_all<A>(s: Seq<A>, p: spec_fn(A) -> bool)
    requires
        forall|i: int| 0 <= i < s.len() ==> p(#[trigger] s[i]),
    ensures
        keep(s, p) == s,
    decreases s.len(),
{
    if s.len() > 0 {
        let prefix = s.drop_last();
        assert forall|i: int| 0 <= i < prefix.len() implies p(#[trigger] prefix[i]) by {
            assert(prefix[i] == s[i]);
        }
        lemma_keep_all(prefix, p);
        assert(p(s[s.len() - 1]));
        assert(prefix.push(s.last()) =~= s);
    }
}

/// A selection whose predicate holds nowhere is empty.
pub proof fn lemma_keep_none<A>(s: Seq<A>, p: spec_fn(A) -> bool)
    requires
        forall|i: int| 0 <= i < s.len() ==> !p(#[trigger] s[i]),
    ensures
        keep(s, p) == Seq::<A>::empty(),
    decreases s.len(),
{
    if s.len() > 0 {
        let prefix = s.drop_last();
        assert forall|i: int| 0 <= i < prefix.len() implies !p(#[trigger] prefix[i]) by {
            assert(prefix[i] == s[i]);
        }
        lemma_keep_none(prefix, p);
        assert(!p(s[s.len() - 1]));
    }
}

/// The id of a node, as a reusable view function.
pub open spec fn node_id_fn() -> spec_fn(Node) -> u64 {
    |n: Node| n.id
}

/// The id of a connection, as a reusable view function.
pub open spec fn conn_id_fn() -> spec_fn(Connection) -> u64 {
    |c: Connection| c.id
}

/// The (source, target) endpoint pair of a connection.
pub open spec fn conn_pair_fn() -> spec_fn(Connection) -> (u64, u64) {
    |c: Connection| (c.source, c.target)
}

/// Keeps the nodes whose id differs from `id`.
pub open spec fn keep_other_node(id: u64) -> spec_fn(Node) -> bool {
    |n: Node| n.id != id
}

/// Keeps the connections whose id differs from `id`.
pub open spec fn keep_other_conn(id: u64) -> spec_fn(Connection) -> bool {
    |c: Connection| c.id != id
}

/// Keeps the connections that do not touch `node_id`.
pub open spec fn keep_unrelated(node_id: u64) -> spec_fn(Connection) -> bool {
    |c: Connection| c.source != node_id && c.target != node_id
}

/// Whether both endpoints of a connection are live node ids.
pub open spec fn live_conn(ids: Seq<u64>, c: Connection) -> bool {
    ids.contains(c.source) && ids.contains(c.target)
}

/// Keeps the connections whose endpoints are both live.
pub open spec fn live_pred(ids: Seq<u64>) -> spec_fn(Connection) -> bool {
    |c: Connection| live_conn(ids, c)
}

/// Keeps the connections with a missing endpoint.
pub open spec fn dangling_pred(ids: Seq<u64>) -> spec_fn(Connection) -> bool {
    |c: Connection| !live_conn(ids, c)
}

/// The warning a dropped connection is reported as.
pub open spec fn warn_fn() -> spec_fn(Connection) -> Warning {
    |c: Connection| Warning::GraphInconsistency { connection_id: c.id }
}

/// The connections whose endpoints are both live, in creation order.
pub open spec fn live_conns(ids: Seq<u64>, conns: Seq<Connection>) -> Seq<Connection> {
    keep(conns, live_pred(ids))
}

/// One `GraphInconsistency` warning per dangling connection, in order.
pub open spec fn dangling_warnings(ids: Seq<u64>, conns: Seq<Connection>) -> Seq<Warning> {
    keep(conns, dangling_pred(ids)).map_values(warn_fn())
}

/// Satisfying elements survive a selection.
pub proof fn lemma_keep_retains<A>(s: Seq<A>, p: spec_fn(A) -> bool)
    ensures
        forall|j: int| 0 <= j < s.len() && p(#[trigger] s[j]) ==> keep(s, p).contains(s[j]),
    decreases s.len(),
{
    if s.len() > 0 {
        let prefix = s.drop_last();
        lemma_keep_retains(prefix, p);
        assert forall|j: int| 0 <= j < s.len() && p(#[trigger] s[j]) implies keep(s, p).contains(
            s[j],
        ) by {
            if j < s.len() - 1 {
                assert(prefix[j] == s[j]);
                assert(keep(prefix, p).contains(s[j]));
                let i = choose|i: int| 0 <= i < keep(prefix, p).len() && keep(prefix, p)[i] == s[j];
                if p(s.last()) {
                    assert(keep(s, p)[i] == s[j]);
                } else {
                    assert(keep(s, p)[i] == s[j]);
                }
            } else {
                assert(keep(s, p)[keep(s, p).len() - 1] == s[j]);
            }
        }
    }
}

/// Structural validity of a document's node list: ids unique and below the
/// top of the identifier space.
pub open spec fn doc_nodes_wf(nodes: Seq<Node>) -> bool {
    &&& nodes.map_values(node_id_fn()).no_duplicates()
    &&& forall|i: int| 0 <= i < nodes.len() ==> (#[trigger] nodes[i]).id < u64::MAX
}

/// Structural validity of a document's connection list: ids unique and below
/// the top of the identifier space, no self-loops, no duplicate pairs.
pub open spec fn doc_conns_wf(conns: Seq<Connection>) -> bool {
    &&& conns.map_values(conn_id_fn()).no_duplicates()
    &&& forall|i: int| 0 <= i < conns.len() ==> (#[trigger] conns[i]).id < u64::MAX
    &&& forall|i: int| 0 <= i < conns.len() ==> (#[trigger] conns[i]).source != conns[i].target
    &&& conns.map_values(conn_pair_fn()).no_duplicates()
}

/// Owns the set of nodes; assigns fresh identifiers from a counter that is
/// never reused, so no two live nodes ever share an id.
pub struct NodeStore {
    nodes: Vec<Node>,
    next_id: u64,
}

impl NodeStore {
    /// The live nodes, in insertion order.
    pub closed spec fn nodes_seq(self) -> Seq<Node> {
        self.nodes@
    }

    /// The next identifier the store would assign.
    pub closed spec fn next_id_spec(self) -> u64 {
        self.next_id
    }

    /// The live node ids, in insertion order.
    pub open spec fn ids(self) -> Seq<u64> {
        self.nodes_seq().map_values(node_id_fn())
    }

    pub open spec fn contains_id(self, id: u64) -> bool {
        self.ids().contains(id)
    }

    /// The node carrying `id` (meaningful only when `contains_id(id)`).
    pub open spec fn node_of(self, id: u64) -> Node {
        self.nodes_seq()[find_index(self.ids(), id)]
    }

    /// Well-formedness: ids are unique and below the fresh-id counter.
    pub open spec fn wf(self) -> bool {
        &&& self.ids().no_duplicates()
        &&& forall|i: int|
            0 <= i < self.nodes_seq().len() ==> (#[trigger] self.nodes_seq()[i]).id
                < self.next_id_spec()
    }

    pub fn new() -> (r: NodeStore)
        ensures
            r.wf(),
            r.nodes_seq() == Seq::<Node>::empty(),
            r.next_id_spec() == 0,
    {
        NodeStore { nodes: Vec::new(), next_id: 0 }
    }

    /// Adds a node with a fresh id; fails only when the identifier space is
    /// exhausted, in which case the store is unchanged.
    pub fn add(&mut self, kind: NodeKind, position: Position) -> (r: Option<u64>)
        requires
            old(self).wf(),
        ensures
            final(self).wf(),
            old(self).next_id_spec() == u64::MAX ==> r is None && *final(self) == *old(self),
            old(self).next_id_spec() < u64::MAX ==> {
                &&& r == Some(old(self).next_id_spec())
                &&& final(self).nodes_seq() == old(self).nodes_seq().push(
                    Node { id: old(self).next_id_spec(), kind, position },
                )
                &&& final(self).next_id_spec() == old(self).next_id_spec() + 1
            },
    {
        if self.next_id == u64::MAX {
            None
        } else {
            let id = self.next_id;
            self.nodes.push(Node { id, kind, position });
            self.next_id = self.next_id + 1;
            proof {
                assert(self.ids() =~= old(self).ids().push(id));
                assert forall|i: int, j: int|
                    0 <= i < self.ids().len() && 0 <= j < self.ids().len() && i != j implies self.ids()[i]
                    != self.ids()[j] by {
                    if i < self.ids().len() - 1 && j < self.ids().len() - 1 {
                        assert(old(self).ids()[i] != old(self).ids()[j]);
                    } else {
                        let k = if i < j { i } else { j };
                        if k < self.ids().len() - 1 {
                            assert(old(self).nodes_seq()[k].id < id);
                        }
                    }
                }
            }
            Some(id)
        }
    }

    /// Number of live nodes.
    pub fn node_count(&self) -> (r: usize)
        ensures
            r == self.nodes_seq().len(),
    {
        self.nodes.len()
    }

    /// The node at position `i` in insertion order.
    pub fn node_at(&self, i: usize) -> (r: Node)
        requires
            i < self.nodes_seq().len(),
        ensures
            r == self.nodes_seq()[i as int],
    {
        self.nodes[i]
    }

    /// Looks a node up by id.
    pub fn get(&self, id: u64) -> (r: Option<Node>)
        requires
            self.wf(),
        ensures
            r is Some <==> self.contains_id(id),
            r matches Some(n) ==> n == self.node_of(id),
    {
        let mut i: usize = 0;
        while i < self.nodes.len()
            invariant
                0 <= i <= self.nodes.len(),
                forall|j: int| 0 <= j < i ==> self.ids()[j] != id,
                self.wf(),
            decreases self.nodes.len() - i,
        {
            if self.nodes[i].id == id {
                proof {
                    assert(self.ids()[i as int] == id);
                    lemma_find_index_unique(self.ids(), id, i as int);
                }
                return Some(self.nodes[i]);
            }
            i = i + 1;
        }
        proof {
            if self.contains_id(id) {
                let j = choose|j: int| 0 <= j < self.ids().len() && self.ids()[j] == id;
                assert(self.ids()[j] != id);
            }
        }
        None
    }

    /// Moves the node carrying `id`; returns whether such a node exists.
    pub fn set_position(&mut self, id: u64, position: Position) -> (r: bool)
        requires
            old(self).wf(),
        ensures
            final(self).wf(),
            final(self).next_id_spec() == old(self).next_id_spec(),
            final(self).ids() == old(self).ids(),
            r <==> old(self).contains_id(id),
            !r ==> final(self).nodes_seq() == old(self).nodes_seq(),
            r ==> final(self).nodes_seq() == old(self).nodes_seq().update(
                find_index(old(self).ids(), id),
                Node { id, kind: old(self).node_of(id).kind, position },
            ),
    {
        let mut i: usize = 0;
        while i < self.nodes.len()
            invariant
                0 <= i <= self.nodes.len(),
                forall|j: int| 0 <= j < i ==> self.ids()[j] != id,
                self.wf(),
                *self == *old(self),
            decreases self.nodes.len() - i,
        {
            if self.nodes[i].id == id {
                proof {
                    assert(self.ids()[i as int] == id);
                    lemma_find_index_unique(self.ids(), id, i as int);
                }
                let kind = self.nodes[i].kind;
                self.nodes[i] = Node { id, kind, position };
                proof {
                    assert(self.ids() =~= old(self).ids());
                }
                return true;
            }
            i = i + 1;
        }
        proof {
            if self.contains_id(id) {
                let j = choose|j: int| 0 <= j < self.ids().len() && self.ids()[j] == id;
                assert(self.ids()[j] != id);
            }
        }
        false
    }

    /// A copy of the node list, in insertion order.
    pub fn to_vec(&self) -> (r: Vec<Node>)
        ensures
            r@ == self.nodes_seq(),
    {
        let n = self.nodes.len();
        let mut r: Vec<Node> = Vec::new();
        let mut i: usize = 0;
        while i < n
            invariant
                0 <= i <= n,
                n == self.nodes_seq().len(),
                r@ == self.nodes_seq().take(i as int),
            decreases n - i,
        {
            r.push(self.nodes[i]);
            proof {
                assert(r@ =~= self.nodes_seq().take(i + 1));
            }
            i = i + 1;
        }
        proof {
            assert(self.nodes_seq().take(n as int) =~= self.nodes_seq());
        }
        r
    }

    /// Adopts a document's node list wholesale, after validating it; the
    /// fresh-id counter restarts above every adopted id.
    pub fn from_nodes(nodes: Vec<Node>) -> (r: Option<NodeStore>)
        ensures
            r is Some <==> doc_nodes_wf(nodes@),
            r matches Some(ns) ==> ns.wf() && ns.nodes_seq() == nodes@,
    {
        let n = nodes.len();
        let mut next: u64 = 0;
        let mut i: usize = 0;
        while i < n
            invariant
                0 <= i <= n,
                n == nodes@.len(),
                nodes@.take(i as int).map_values(node_id_fn()).no_duplicates(),
                forall|j: int| 0 <= j < i ==> (#[trigger] nodes@[j]).id < u64::MAX,
                forall|j: int| 0 <= j < i ==> (#[trigger] nodes@[j]).id < next,
            decreases n - i,
        {
            let id = nodes[i].id;
            if id == u64::MAX {
                proof {
                    assert(nodes@[i as int].id == u64::MAX);
                }
                return None;
            }
            let mut j: usize = 0;
            while j < i
                invariant
                    0 <= j <= i < n,
                    n == nodes@.len(),
                    id == nodes@[i as int].id,
                    forall|k: int| 0 <= k < j ==> (#[trigger] nodes@[k]).id != id,
                decreases i - j,
            {
                if nodes[j].id == id {
                    proof {
                        let ids = nodes@.map_values(node_id_fn());
                        assert(ids[j as int] == ids[i as int]);
                    }
                    return None;
                }
                j = j + 1;
            }
            if id >= next {
                next = id + 1;
            }
            proof {
                let tk = nodes@.take(i as int);
                let tk1 = nodes@.take(i + 1);
                assert(tk1 =~= tk.push(nodes@[i as int]));
                let old_ids = tk.map_values(node_id_fn());
                let new_ids = tk1.map_values(node_id_fn());
                assert(new_ids =~= old_ids.push(id));
                assert forall|a: int, b: int|
                    0 <= a < new_ids.len() && 0 <= b < new_ids.len() && a != b implies #[trigger] new_ids[a]
                    != #[trigger] new_ids[b] by {
                    if a < new_ids.len() - 1 && b < new_ids.len() - 1 {
                        assert(old_ids[a] != old_ids[b]);
                    } else {
                        let c = if a < b { a } else { b };
                        if c < new_ids.len() - 1 {
                            assert(old_ids[c] == nodes@[c].id);
                            assert(nodes@[c].id != id);
                        }
                    }
                }
            }
            i = i + 1;
        }
        proof {
            assert(nodes@.take(n as int) =~= nodes@);
        }
        let ns = NodeStore { nodes, next_id: next };
        proof {
            assert(ns.ids() == ns.nodes_seq().map_values(node_id_fn()));
        }
        Some(ns)
    }

    /// Removes the node carrying `id`; removing an absent id is a no-op, so
    /// deletion is idempotent.
    pub fn remove(&mut self, id: u64)
        requires
            old(self).wf(),
        ensures
            final(self).wf(),
            final(self).next_id_spec() == old(self).next_id_spec(),
            final(self).nodes_seq() == keep(old(self).nodes_seq(), keep_other_node(id)),
    {
        let ghost p = keep_other_node(id);
        let n = self.nodes.len();
        let mut kept: Vec<Node> = Vec::new();
        let mut i: usize = 0;
        while i < n
            invariant
                0 <= i <= n,
                n == self.nodes.len(),
                *self == *old(self),
                kept@ == keep(self.nodes@.take(i as int), p),
                p == keep_other_node(id),
            decreases n - i,
        {
            proof {
                assert(self.nodes@.take(i + 1) =~= self.nodes@.take(i as int).push(
                    self.nodes@[i as int],
                ));
                lemma_keep_push(self.nodes@.take(i as int), self.nodes@[i as int], p);
            }
            if self.nodes[i].id != id {
                kept.push(self.nodes[i]);
            }
            i = i + 1;
        }
        proof {
            assert(self.nodes@.take(n as int) =~= self.nodes@);
        }
        self.nodes = kept;
        proof {
            lemma_keep_map_no_dup(old(self).nodes_seq(), p, node_id_fn());
            lemma_keep_member(old(self).nodes_seq(), p);
            assert forall|i: int|
                0 <= i < self.nodes_seq().len() implies (#[trigger] self.nodes_seq()[i]).id
                < self.next_id_spec() by {
                let j = choose|j: int|
                    0 <= j < old(self).nodes_seq().len() && old(self).nodes_seq()[j]
                        == self.nodes_seq()[i];
            }
        }
    }
}

/// Owns the set of directed connections between node ids.
pub struct ConnectionStore {
    connections: Vec<Connection>,
    next_id: u64,
}

/// How one `ConnectionStore::add` call relates the store before and after the
/// call to its result: self-loops and duplicate pairs are rejected with the
/// store unchanged; otherwise a connection with a fresh id is appended.
pub open spec fn add_transition(
    pre: ConnectionStore,
    post: ConnectionStore,
    source: u64,
    target: u64,
    r: Result<u64, ConnectError>,
) -> bool {
    if source == target {
        r == Err::<u64, ConnectError>(ConnectError::SelfLoop) && post == pre
    } else if pre.has_pair(source, target) {
        r == Err::<u64, ConnectError>(ConnectError::Duplicate) && post == pre
    } else if pre.next_id_spec() == u64::MAX {
        r == Err::<u64, ConnectError>(ConnectError::IdExhausted) && post == pre
    } else {
        &&& r == Ok::<u64, ConnectError>(pre.next_id_spec())
        &&& post.conns_seq() == pre.conns_seq().push(
            Connection { id: pre.next_id_spec(), source, target },
        )
        &&& post.next_id_spec() == pre.next_id_spec() + 1
    }
}

impl ConnectionStore {
    /// The live connections, in creation order.
    pub closed spec fn conns_seq(self) -> Seq<Connection> {
        self.connections@
    }

    /// The next identifier the store would assign.
    pub closed spec fn next_id_spec(self) -> u64 {
        self.next_id
    }

    /// The live connection ids, in creation order.
    pub open spec fn conn_ids(self) -> Seq<u64> {
        self.conns_seq().map_values(conn_id_fn())
    }

    pub open spec fn contains_id(self, id: u64) -> bool {
        self.conn_ids().contains(id)
    }

    /// Whether a connection with this exact (source, target) pair exists.
    pub open spec fn has_pair(self, source: u64, target: u64) -> bool {
        exists|i: int|
            0 <= i < self.conns_seq().len() && (#[trigger] self.conns_seq()[i]).source == source
                && self.conns_seq()[i].target == target
    }

    /// Well-formedness: unique ids below the counter, no self-loops, and no
    /// two connections with the same (source, target) pair.
    pub open spec fn wf(self) -> bool {
        &&& self.conn_ids().no_duplicates()
        &&& forall|i: int|
            0 <= i < self.conns_seq().len() ==> (#[trigger] self.conns_seq()[i]).id
                < self.next_id_spec()
        &&& forall|i: int|
            0 <= i < self.conns_seq().len() ==> (#[trigger] self.conns_seq()[i]).source
                != self.conns_seq()[i].target
        &&& self.conns_seq().map_values(conn_pair_fn()).no_duplicates()
    }

    pub fn new() -> (r: ConnectionStore)
        ensures
            r.wf(),
            r.conns_seq() == Seq::<Connection>::empty(),
            r.next_id_spec() == 0,
    {
        ConnectionStore { connections: Vec::new(), next_id: 0 }
    }

    /// Number of live connections.
    pub fn conn_count(&self) -> (r: usize)
        ensures
            r == self.conns_seq().len(),
    {
        self.connections.len()
    }

    /// The connection at position `i` in creation order.
    pub fn conn_at(&self, i: usize) -> (r: Connection)
        requires
            i < self.conns_seq().len(),
        ensures
            r == self.conns_seq()[i as int],
    {
        self.connections[i]
    }

    /// Attempts to create a connection; rejects self-loops and duplicate
    /// (source, target) pairs without changing the store. Cycles are not
    /// checked here: detecting them is the evaluator's responsibility.
    pub fn add(&mut self, source: u64, target: u64) -> (r: Result<u64, ConnectError>)
        requires
            old(self).wf(),
        ensures
            final(self).wf(),
            add_transition(*old(self), *final(self), source, target, r),
    {
        if source == target {
            return Err(ConnectError::SelfLoop);
        }
        let n = self.connections.len();
        let mut i: usize = 0;
        while i < n
            invariant
                0 <= i <= n,
                n == self.connections.len(),
                *self == *old(self),
                old(self).wf(),
                source != target,
                forall|j: int|
                    0 <= j < i ==> !((#[trigger] self.conns_seq()[j]).source == source
                        && self.conns_seq()[j].target == target),
            decreases n - i,
        {
            if self.connections[i].source == source && self.connections[i].target == target {
                proof {
                    assert(self.conns_seq()[i as int].source == source && self.conns_seq()[
                        i as int
                    ].target == target);
                }
                return Err(ConnectError::Duplicate);
            }
            i = i + 1;
        }
        if self.next_id == u64::MAX {
            return Err(ConnectError::IdExhausted);
        }
        let id = self.next_id;
        self.connections.push(Connection { id, source, target });
        self.next_id = self.next_id + 1;
        proof {
            assert(self.conn_ids() =~= old(self).conn_ids().push(id));
            let ids = self.conn_ids();
            assert forall|a: int, b: int|
                0 <= a < ids.len() && 0 <= b < ids.len() && a != b implies #[trigger] ids[a]
                != #[trigger] ids[b] by {
                if a < ids.len() - 1 && b < ids.len() - 1 {
                    assert(old(self).conn_ids()[a] != old(self).conn_ids()[b]);
                } else {
                    let k = if a < b { a } else { b };
                    if k < ids.len() - 1 {
                        assert(old(self).conns_seq()[k].id < id);
                    }
                }
            }
            let pairs = self.conns_seq().map_values(conn_pair_fn());
            let old_pairs = old(self).conns_seq().map_values(conn_pair_fn());
            assert(pairs =~= old_pairs.push((source, target)));
            assert forall|a: int, b: int|
                0 <= a < pairs.len() && 0 <= b < pairs.len() && a != b implies #[trigger] pairs[a]
                != #[trigger] pairs[b] by {
                if a < pairs.len() - 1 && b < pairs.len() - 1 {
                    assert(old_pairs[a] != old_pairs[b]);
                } else {
                    let k = if a < b { a } else { b };
                    if k < pairs.len() - 1 {
                        assert(!(old(self).conns_seq()[k].source == source && old(
                            self,
                        ).conns_seq()[k].target == target));
                        assert(old_pairs[k] == (old(self).conns_seq()[k].source, old(
                            self,
                        ).conns_seq()[k].target));
                    }
                }
            }
        }
        Ok(id)
    }

    /// A copy of the connection list, in creation order.
    pub fn to_vec(&self) -> (r: Vec<Connection>)
        ensures
            r@ == self.conns_seq(),
    {
        let n = self.connections.len();
        let mut r: Vec<Connection> = Vec::new();
        let mut i: usize = 0;
        while i < n
            invariant
                0 <= i <= n,
                n == self.conns_seq().len(),
                r@ == self.conns_seq().take(i as int),
            decreases n - i,
        {
            r.push(self.connections[i]);
            proof {
                assert(r@ =~= self.conns_seq().take(i + 1));
            }
            i = i + 1;
        }
        proof {
            assert(self.conns_seq().take(n as int) =~= self.conns_seq());
        }
        r
    }

    /// Adopts a document's connection list wholesale, after validating it;
    /// the fresh-id counter restarts above every adopted id.
    pub fn from_connections(conns: Vec<Connection>) -> (r: Option<ConnectionStore>)
        ensures
            r is Some <==> doc_conns_wf(conns@),
            r matches Some(cs) ==> cs.wf() && cs.conns_seq() == conns@,
    {
        let n = conns.len();
        let mut next: u64 = 0;
        let mut i: usize = 0;
        while i < n
            invariant
                0 <= i <= n,
                n == conns@.len(),
                conns@.take(i as int).map_values(conn_id_fn()).no_duplicates(),
                conns@.take(i as int).map_values(conn_pair_fn()).no_duplicates(),
                forall|j: int| 0 <= j < i ==> (#[trigger] conns@[j]).id < u64::MAX,
                forall|j: int| 0 <= j < i ==> (#[trigger] conns@[j]).source != conns@[j].target,
                forall|j: int| 0 <= j < i ==> (#[trigger] conns@[j]).id < next,
            decreases n - i,
        {
            let c = conns[i];
            if c.id == u64::MAX {
                proof {
                    assert(conns@[i as int].id == u64::MAX);
                }
                return None;
            }
            if c.source == c.target {
                proof {
                    assert(conns@[i as int].source == conns@[i as int].target);
                }
                return None;
            }
            let mut j: usize = 0;
            while j < i
                invariant
                    0 <= j <= i < n,
                    n == conns@.len(),
                    c == conns@[i as int],
                    forall|k: int| 0 <= k < j ==> (#[trigger] conns@[k]).id != c.id,
                    forall|k: int|
                        0 <= k < j ==> !((#[trigger] conns@[k]).source == c.source && conns@[
                            k
                        ].target == c.target),
                decreases i - j,
            {
                if conns[j].id == c.id {
                    proof {
                        let ids = conns@.map_values(conn_id_fn());
                        assert(ids[j as int] == ids[i as int]);
                    }
                    return None;
                }
                if conns[j].source == c.source && conns[j].target == c.target {
                    proof {
                        let pairs = conns@.map_values(conn_pair_fn());
                        assert(pairs[j as int] == pairs[i as int]);
                    }
                    return None;
                }
                j = j + 1;
            }
            if c.id >= next {
                next = c.id + 1;
            }
            proof {
                let tk = conns@.take(i as int);
                let tk1 = conns@.take(i + 1);
                assert(tk1 =~= tk.push(conns@[i as int]));
                let old_ids = tk.map_values(conn_id_fn());
                let new_ids = tk1.map_values(conn_id_fn());
                assert(new_ids =~= old_ids.push(c.id));
                assert forall|a: int, b: int|
                    0 <= a < new_ids.len() && 0 <= b < new_ids.len() && a != b implies #[trigger] new_ids[a]
                    != #[trigger] new_ids[b] by {
                    if a < new_ids.len() - 1 && b < new_ids.len() - 1 {
                        assert(old_ids[a] != old_ids[b]);
                    } else {
                        let d = if a < b { a } else { b };
                        if d < new_ids.len() - 1 {
                            assert(old_ids[d] == conns@[d].id);
                            assert(conns@[d].id != c.id);
                        }
                    }
                }
                let old_pairs = tk.map_values(conn_pair_fn());
                let new_pairs = tk1.map_values(conn_pair_fn());
                assert(new_pairs =~= old_pairs.push((c.source, c.target)));
                assert forall|a: int, b: int|
                    0 <= a < new_pairs.len() && 0 <= b < new_pairs.len() && a != b implies #[trigger] new_pairs[a]
                    != #[trigger] new_pairs[b] by {
                    if a < new_pairs.len() - 1 && b < new_pairs.len() - 1 {
                        assert(old_pairs[a] != old_pairs[b]);
                    } else {
                        let d = if a < b { a } else { b };
                        if d < new_pairs.len() - 1 {
                            assert(old_pairs[d] == (conns@[d].source, conns@[d].target));
                            assert(!(conns@[d].source == c.source && conns@[d].target == c.target));
                        }
                    }
                }
            }
            i = i + 1;
        }
        proof {
            assert(conns@.take(n as int) =~= conns@);
        }
        Some(ConnectionStore { connections: conns, next_id: next })
    }

    /// Removes the connection carrying `id`; removing an absent id is a no-op.
    pub fn remove(&mut self, id: u64)
        requires
            old(self).wf(),
        ensures
            final(self).wf(),
            final(self).next_id_spec() == old(self).next_id_spec(),
            final(self).conns_seq() == keep(old(self).conns_seq(), keep_other_conn(id)),
    {
        let ghost p = keep_other_conn(id);
        let n = self.connections.len();
        let mut kept: Vec<Connection> = Vec::new();
        let mut i: usize = 0;
        while i < n
            invariant
                0 <= i <= n,
                n == self.connections.len(),
                *self == *old(self),
                kept@ == keep(self.connections@.take(i as int), p),
                p == keep_other_conn(id),
            decreases n - i,
        {
            proof {
                assert(self.connections@.take(i + 1) =~= self.connections@.take(i as int).push(
                    self.connections@[i as int],
                ));
                lemma_keep_push(self.connections@.take(i as int), self.connections@[i as int], p);
            }
            if self.connections[i].id != id {
                kept.push(self.connections[i]);
            }
            i = i + 1;
        }
        proof {
            assert(self.connections@.take(n as int) =~= self.connections@);
        }
        self.connections = kept;
        proof {
            lemma_keep_wf_connections(old(self).conns_seq(), p, old(self).next_id_spec());
        }
    }

    /// Removes every connection that touches `node_id`; used as the cascade
    /// when a node is deleted.
    pub fn remove_incident(&mut self, node_id: u64)
        requires
            old(self).wf(),
        ensures
            final(self).wf(),
            final(self).next_id_spec() == old(self).next_id_spec(),
            final(self).conns_seq() == keep(old(self).conns_seq(), keep_unrelated(node_id)),
    {
        let ghost p = keep_unrelated(node_id);
        let n = self.connections.len();
        let mut kept: Vec<Connection> = Vec::new();
        let mut i: usize = 0;
        while i < n
            invariant
                0 <= i <= n,
                n == self.connections.len(),
                *self == *old(self),
                kept@ == keep(self.connections@.take(i as int), p),
                p == keep_unrelated(node_id),
            decreases n - i,
        {
            proof {
                assert(self.connections@.take(i + 1) =~= self.connections@.take(i as int).push(
                    self.connections@[i as int],
                ));
                lemma_keep_push(self.connections@.take(i as int), self.connections@[i as int], p);
            }
            if self.connections[i].source != node_id && self.connections[i].target != node_id {
                kept.push(self.connections[i]);
            }
            i = i + 1;
        }
        proof {
            assert(self.connections@.take(n as int) =~= self.connections@);
        }
        self.connections = kept;
        proof {
            lemma_keep_wf_connections(old(self).conns_seq(), p, old(self).next_id_spec());
        }
    }
}

impl ConnectionStore {
    /// Drops every connection with a missing endpoint, reporting one
    /// `GraphInconsistency` warning per dropped connection; matches the
    /// pruning a graph build performs.
    pub fn remove_dangling(&mut self, ns: &NodeStore) -> (warnings: Vec<Warning>)
        requires
            old(self).wf(),
            ns.wf(),
        ensures
            final(self).wf(),
            final(self).next_id_spec() == old(self).next_id_spec(),
            final(self).conns_seq() == live_conns(ns.ids(), old(self).conns_seq()),
            warnings@ == dangling_warnings(ns.ids(), old(self).conns_seq()),
    {
        let ghost p = live_pred(ns.ids());
        let ghost q = dangling_pred(ns.ids());
        let n = self.connections.len();
        let mut kept: Vec<Connection> = Vec::new();
        let mut warnings: Vec<Warning> = Vec::new();
        let mut i: usize = 0;
        while i < n
            invariant
                0 <= i <= n,
                n == self.connections.len(),
                *self == *old(self),
                ns.wf(),
                kept@ == keep(self.connections@.take(i as int), p),
                warnings@ == keep(self.connections@.take(i as int), q).map_values(warn_fn()),
                p == live_pred(ns.ids()),
                q == dangling_pred(ns.ids()),
            decreases n - i,
        {
            let c = self.connections[i];
            proof {
                assert(self.connections@.take(i + 1) =~= self.connections@.take(i as int).push(c));
                lemma_keep_push(self.connections@.take(i as int), c, p);
                lemma_keep_push(self.connections@.take(i as int), c, q);
            }
            let source_live = ns.get(c.source).is_some();
            let target_live = ns.get(c.target).is_some();
            if source_live && target_live {
                kept.push(c);
            } else {
                warnings.push(Warning::GraphInconsistency { connection_id: c.id });
                proof {
                    assert(warnings@ =~= keep(self.connections@.take(i + 1), q).map_values(
                        warn_fn(),
                    ));
                }
            }
            i = i + 1;
        }
        proof {
            assert(self.connections@.take(n as int) =~= self.connections@);
        }
        self.connections = kept;
        proof {
            lemma_keep_wf_connections(old(self).conns_seq(), p, old(self).next_id_spec());
        }
        warnings
    }
}

/// A selected subsequence of a well-formed connection sequence keeps the
/// store's invariants.
pub proof fn lemma_keep_wf_connections(
    s: Seq<Connection>,
    p: spec_fn(Connection) -> bool,
    bound: u64,
)
    requires
        s.map_values(conn_id_fn()).no_duplicates(),
        forall|i: int| 0 <= i < s.len() ==> (#[trigger] s[i]).id < bound,
        forall|i: int| 0 <= i < s.len() ==> (#[trigger] s[i]).source != s[i].target,
        s.map_values(conn_pair_fn()).no_duplicates(),
    ensures
        keep(s, p).map_values(conn_id_fn()).no_duplicates(),
        forall|i: int| 0 <= i < keep(s, p).len() ==> (#[trigger] keep(s, p)[i]).id < bound,
        forall|i: int|
            0 <= i < keep(s, p).len() ==> (#[trigger] keep(s, p)[i]).source != keep(s, p)[i].target,
        keep(s, p).map_values(conn_pair_fn()).no_duplicates(),
{
    lemma_keep_map_no_dup(s, p, conn_id_fn());
    lemma_keep_map_no_dup(s, p, conn_pair_fn());
    lemma_keep_member(s, p);
    assert forall|i: int|
        0 <= i < keep(s, p).len() implies (#[trigger] keep(s, p)[i]).id < bound && keep(s, p)[
        i
    ].source != keep(s, p)[i].target by {
        let j = choose|j: int| 0 <= j < s.len() && s[j] == keep(s, p)[i];
    }
}

} // verus!
