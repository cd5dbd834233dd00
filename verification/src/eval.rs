//! The evaluator: walks the graph index in dependency order, computing each
//! node's output from its predecessors' results. Every run terminates on any
//! finite graph; vertices on or downstream of a cycle are reported as
//! `CycleDetected` instead of being evaluated, and a node's failure poisons
//! only the nodes that transitively depend on it.

use vstd::prelude::*;
use crate::graph::{is_walk, tainted, GraphIndex};
use crate::model::{find_index, lemma_find_index_props, lemma_find_index_unique, Node, NodeKind, NodeStore};

verus! {

/// The per-node result of one evaluation run: a value or a per-node error.
#[derive(Clone, Copy, Debug, PartialEq, Eq, Structural)]
pub enum Outcome {
    /// The node's computed value.
    Value { value: i64 },
    /// The node lies on a cycle or depends on one; it was not evaluated.
    CycleDetected,
    /// A binary combine node had the wrong number of inputs.
    InsufficientInputs { need: usize, got: usize },
    /// A sink had no incoming connection.
    NoInput,
    /// A sink had more than one incoming connection.
    AmbiguousInput,
    /// A predecessor failed, so this node could not be evaluated.
    UpstreamError,
}

pub open spec fn is_value(o: Outcome) -> bool {
    match o {
        Outcome::Value { .. } => true,
        _ => false,
    }
}

pub open spec fn value_of(o: Outcome) -> i64 {
    match o {
        Outcome::Value { value } => value,
        _ => 0,
    }
}

/// What one node computes from its ordered predecessor outcomes. Sources
/// emit their constant; a binary combine demands exactly two resolved inputs
/// and adds them (wrapping on overflow); a sink demands exactly one input and
/// passes it through; a failed predecessor propagates as `UpstreamError`.
pub open spec fn compute_spec(kind: NodeKind, inputs: Seq<Outcome>) -> Outcome {
    match kind {
        NodeKind::Source { value } => Outcome::Value { value },
        NodeKind::BinaryCombine => {
            if inputs.len() != 2 {
                Outcome::InsufficientInputs { need: 2, got: inputs.len() as usize }
            } else if !is_value(inputs[0]) || !is_value(inputs[1]) {
                Outcome::UpstreamError
            } else {
                Outcome::Value { value: value_of(inputs[0]).wrapping_add(value_of(inputs[1])) }
            }
        },
        NodeKind::Sink => {
            if inputs.len() == 0 {
                Outcome::NoInput
            } else if inputs.len() >= 2 {
                Outcome::AmbiguousInput
            } else if !is_value(inputs[0]) {
                Outcome::UpstreamError
            } else {
                inputs[0]
            }
        },
    }
}

/// Evaluation itself never reports a cycle: `CycleDetected` marks exactly
/// the vertices the dependency walk could not reach.
pub proof fn lemma_compute_not_cycle(kind: NodeKind, inputs: Seq<Outcome>)
    ensures
        compute_spec(kind, inputs) != Outcome::CycleDetected,
{
}

/// The outcome at a given vertex index.
pub open spec fn outcome_at_fn(outs: Seq<Outcome>) -> spec_fn(int) -> Outcome {
    |p: int| outs[p]
}

/// The ordered predecessor outcomes handed to a vertex.
pub open spec fn eval_inputs(pv: Seq<int>, outs: Seq<Outcome>) -> Seq<Outcome> {
    pv.map_values(outcome_at_fn(outs))
}

/// The kind of a node.
pub open spec fn node_kind_fn() -> spec_fn(Node) -> NodeKind {
    |n: Node| n.kind
}

/// The node kinds of a store, in insertion order.
pub open spec fn kinds_of(ns: NodeStore) -> Seq<NodeKind> {
    ns.nodes_seq().map_values(node_kind_fn())
}

/// The defining property of a run's outcomes: every vertex is covered, a
/// vertex is `CycleDetected` exactly when it lies on or downstream of a
/// cycle, and every other vertex carries what its kind computes from its
/// predecessors' outcomes. This pins the outcome sequence uniquely.
pub open spec fn evaluation_post(
    kinds: Seq<NodeKind>,
    preds: Seq<Seq<int>>,
    outs: Seq<Outcome>,
) -> bool {
    &&& outs.len() == preds.len()
    &&& forall|v: int|
        0 <= v < outs.len() ==> ((#[trigger] outs[v]) == Outcome::CycleDetected <==> tainted(
            preds,
            v,
        ))
    &&& forall|v: int|
        0 <= v < outs.len() && !tainted(preds, v) ==> (#[trigger] outs[v]) == compute_spec(
            kinds[v],
            eval_inputs(preds[v], outs),
        )
}

/// All predecessor entries are valid vertex indices.
pub open spec fn wf_preds(preds: Seq<Seq<int>>) -> bool {
    forall|t: int, k: int|
        0 <= t < preds.len() && 0 <= k < preds[t].len() ==> 0 <= #[trigger] preds[t][k]
            < preds.len()
}

/// Every not-yet-done vertex still waits on a not-yet-done predecessor.
pub open spec fn stuck(preds: Seq<Seq<int>>, done: Seq<bool>) -> bool {
    forall|v: int|
        0 <= v < done.len() && !(#[trigger] done[v]) ==> exists|k: int|
            0 <= k < preds[v].len() && !done[preds[v][k]]
}

/// `p` occurs in the schedule strictly before position `k`.
pub open spec fn sched_before(sched: Seq<int>, p: int, k: int) -> bool {
    exists|k2: int| 0 <= k2 < k && sched[k2] == p
}

/// Every vertex is scheduled only after all of its predecessors.
pub open spec fn sched_respects(preds: Seq<Seq<int>>, sched: Seq<int>) -> bool {
    forall|k: int, m: int|
        0 <= k < sched.len() && 0 <= m < preds[sched[k]].len() ==> sched_before(
            sched,
            #[trigger] preds[sched[k]][m],
            k,
        )
}

/// A duplicate-free sequence of values drawn from `[0, n)` has at most `n`
/// elements.
pub proof fn lemma_distinct_in_range_len(s: Seq<int>, n: int)
    requires
        s.no_duplicates(),
        forall|k: int| 0 <= k < s.len() ==> 0 <= #[trigger] s[k] < n,
        0 <= n,
    ensures
        s.len() <= n,
{
    broadcast use vstd::seq_lib::seq_to_set_is_finite;

    s.unique_seq_to_set();
    let range = vstd::set_lib::set_int_range(0, n);
    assert forall|x: int| s.to_set().contains(x) implies range.contains(x) by {
        assert(s.contains(x));
        let k = choose|k: int| 0 <= k < s.len() && s[k] == x;
        assert(0 <= s[k] < n);
    }
    assert(s.to_set().subset_of(range));
    vstd::set_lib::lemma_int_range(0, n);
    vstd::set_lib::lemma_len_subset(s.to_set(), range);
}

/// Along any walk that ends at a scheduled vertex, every vertex is scheduled
/// and the schedule positions strictly increase.
proof fn lemma_walk_scheduled(preds: Seq<Seq<int>>, sched: Seq<int>, w: Seq<int>)
    requires
        sched.no_duplicates(),
        forall|k: int| 0 <= k < sched.len() ==> 0 <= #[trigger] sched[k] < preds.len(),
        sched_respects(preds, sched),
        is_walk(preds, w),
        sched.contains(w.last()),
    ensures
        forall|k: int| 0 <= k < w.len() ==> sched.contains(#[trigger] w[k]),
        forall|k: int|
            1 <= k < w.len() ==> find_index(sched, w[k - 1]) < find_index(sched, #[trigger] w[k]),
    decreases w.len(),
{
    let v = w.last();
    lemma_find_index_props(sched, v);
    let kv = find_index(sched, v);
    assert(sched[kv] == v);
    if w.len() >= 2 {
        let u = w[w.len() - 2];
        assert(preds[v].contains(u));
        let m = choose|m: int| 0 <= m < preds[v].len() && preds[v][m] == u;
        assert(sched_before(sched, preds[sched[kv]][m], kv));
        let k2 = choose|k2: int| 0 <= k2 < kv && sched[k2] == u;
        assert(sched.contains(u));
        lemma_find_index_unique(sched, u, k2);
        let w0 = w.drop_last();
        assert(w0.last() == u);
        assert(is_walk(preds, w0)) by {
            assert forall|k: int| 0 <= k < w0.len() implies 0 <= #[trigger] w0[k] < preds.len() by {
                assert(w0[k] == w[k]);
            }
            assert forall|k: int| 1 <= k < w0.len() implies preds[#[trigger] w0[k]].contains(
                w0[k - 1],
            ) by {
                assert(w0[k] == w[k] && w0[k - 1] == w[k - 1]);
            }
        }
        lemma_walk_scheduled(preds, sched, w0);
        assert forall|k: int| 0 <= k < w.len() implies sched.contains(#[trigger] w[k]) by {
            if k < w.len() - 1 {
                assert(w[k] == w0[k]);
            }
        }
        assert forall|k: int|
            1 <= k < w.len() implies find_index(sched, w[k - 1]) < find_index(
            sched,
            #[trigger] w[k],
        ) by {
            if k < w.len() - 1 {
                assert(w[k] == w0[k] && w[k - 1] == w0[k - 1]);
            } else {
                assert(w[k] == v && w[k - 1] == u);
            }
        }
    }
}

/// Schedule positions increase along a walk, between any two positions.
proof fn lemma_walk_positions_increase(sched: Seq<int>, w: Seq<int>, i: int, j: int)
    requires
        forall|k: int|
            1 <= k < w.len() ==> find_index(sched, w[k - 1]) < find_index(sched, #[trigger] w[k]),
        0 <= i < j < w.len(),
    ensures
        find_index(sched, w[i]) < find_index(sched, w[j]),
    decreases j - i,
{
    if j == i + 1 {
        assert(find_index(sched, w[j - 1]) < find_index(sched, w[j]));
    } else {
        lemma_walk_positions_increase(sched, w, i, j - 1);
        assert(find_index(sched, w[j - 1]) < find_index(sched, w[j]));
    }
}

/// A scheduled vertex is not tainted: no repeating walk can reach it.
proof fn lemma_scheduled_untainted(preds: Seq<Seq<int>>, sched: Seq<int>, v: int)
    requires
        sched.no_duplicates(),
        forall|k: int| 0 <= k < sched.len() ==> 0 <= #[trigger] sched[k] < preds.len(),
        sched_respects(preds, sched),
        sched.contains(v),
    ensures
        !tainted(preds, v),
{
    if tainted(preds, v) {
        let w = choose|w: Seq<int>| is_walk(preds, w) && w.last() == v && !w.no_duplicates();
        lemma_walk_scheduled(preds, sched, w);
        let (i, j) = choose|i: int, j: int|
            0 <= i < w.len() && 0 <= j < w.len() && i != j && w[i] == w[j];
        let a = if i < j { i } else { j };
        let b = if i < j { j } else { i };
        lemma_walk_positions_increase(sched, w, a, b);
        assert(w[a] == w[b]);
        assert(false);
    }
}

/// Builds a walk of any requested length that ends at an unfinished vertex
/// and stays entirely among unfinished vertices.
proof fn lemma_undone_walk(preds: Seq<Seq<int>>, done: Seq<bool>, v: int, len: nat) -> (w: Seq<
    int,
>)
    requires
        wf_preds(preds),
        done.len() == preds.len(),
        stuck(preds, done),
        0 <= v < preds.len(),
        !done[v],
        len >= 1,
    ensures
        is_walk(preds, w),
        w.len() == len,
        w.last() == v,
    decreases len,
{
    if len == 1 {
        let w = seq![v];
        assert(w.last() == v);
        assert forall|k: int| 0 <= k < w.len() implies 0 <= #[trigger] w[k] < preds.len() by {
            assert(w[k] == v);
        }
        w
    } else {
        let k = choose|k: int| 0 <= k < preds[v].len() && !done[preds[v][k]];
        let p = preds[v][k];
        let w0 = lemma_undone_walk(preds, done, p, (len - 1) as nat);
        let w = w0.push(v);
        assert(w.last() == v);
        assert forall|m: int| 0 <= m < w.len() implies 0 <= #[trigger] w[m] < preds.len() by {
            if m < w.len() - 1 {
                assert(w[m] == w0[m]);
            }
        }
        assert forall|m: int| 1 <= m < w.len() implies preds[#[trigger] w[m]].contains(
            w[m - 1],
        ) by {
            if m < w.len() - 1 {
                assert(w[m] == w0[m] && w[m - 1] == w0[m - 1]);
            } else {
                assert(w[m] == v && w[m - 1] == w0.last());
                assert(w0.last() == p);
                assert(preds[v][k] == p);
            }
        }
        w
    }
}

/// When every unfinished vertex waits on an unfinished predecessor, each
/// unfinished vertex is tainted: some walk reaching it must repeat.
proof fn lemma_stuck_tainted(preds: Seq<Seq<int>>, done: Seq<bool>, v: int)
    requires
        wf_preds(preds),
        done.len() == preds.len(),
        stuck(preds, done),
        0 <= v < preds.len(),
        !done[v],
    ensures
        tainted(preds, v),
{
    let n = preds.len() as int;
    let w = lemma_undone_walk(preds, done, v, (n + 1) as nat);
    if w.no_duplicates() {
        lemma_distinct_in_range_len(w, n);
        assert(false);
    }
    assert(is_walk(preds, w) && w.last() == v && !w.no_duplicates());
}

/// Evaluation is deterministic for a fixed graph and fixed node kinds: only
/// one outcome sequence satisfies the evaluation contract, so repeated runs
/// on unchanged input produce identical results.
pub proof fn lemma_evaluation_deterministic(
    kinds: Seq<NodeKind>,
    preds: Seq<Seq<int>>,
    o1: Seq<Outcome>,
    o2: Seq<Outcome>,
)
    requires
        wf_preds(preds),
        evaluation_post(kinds, preds, o1),
        evaluation_post(kinds, preds, o2),
    ensures
        o1 == o2,
{
    let n = preds.len() as int;
    let done = Seq::new(preds.len(), |v: int| o1[v] == o2[v]);
    assert forall|v: int| 0 <= v < done.len() && !(#[trigger] done[v]) implies exists|k: int|
        0 <= k < preds[v].len() && !done[preds[v][k]] by {
        if tainted(preds, v) {
            assert(o1[v] == Outcome::CycleDetected);
            assert(o2[v] == Outcome::CycleDetected);
        } else {
            assert(o1[v] == compute_spec(kinds[v], eval_inputs(preds[v], o1)));
            assert(o2[v] == compute_spec(kinds[v], eval_inputs(preds[v], o2)));
            if forall|k: int| 0 <= k < preds[v].len() ==> done[#[trigger] preds[v][k]] {
                assert(eval_inputs(preds[v], o1) =~= eval_inputs(preds[v], o2)) by {
                    assert forall|j: int|
                        0 <= j < preds[v].len() implies eval_inputs(preds[v], o1)[j] == eval_inputs(
                        preds[v],
                        o2,
                    )[j] by {
                        assert(done[preds[v][j]]);
                        assert(0 <= preds[v][j] < n);
                    }
                }
                assert(false);
            }
            let k = choose|k: int| 0 <= k < preds[v].len() && !done[preds[v][k]];
            assert(0 <= k < preds[v].len() && !done[preds[v][k]]);
        }
    }
    assert(stuck(preds, done));
    assert forall|v: int| 0 <= v < n implies o1[v] == o2[v] by {
        if o1[v] != o2[v] {
            assert(!done[v]);
            lemma_stuck_tainted(preds, done, v);
            assert(o1[v] == Outcome::CycleDetected);
            assert(o2[v] == Outcome::CycleDetected);
        }
    }
    assert(o1 =~= o2);
}

/// Every vertex on a cycle is reported as `CycleDetected` by any run whose
/// outcomes satisfy the evaluation contract; together with the totality of
/// the result map this is what makes evaluation safe on cyclic graphs.
pub proof fn lemma_cycle_nodes_detected(
    kinds: Seq<NodeKind>,
    preds: Seq<Seq<int>>,
    outs: Seq<Outcome>,
    cyc: Seq<int>,
)
    requires
        evaluation_post(kinds, preds, outs),
        is_walk(preds, cyc),
        cyc.first() == cyc.last(),
        cyc.len() >= 2,
    ensures
        outs[cyc.last()] == Outcome::CycleDetected,
{
    crate::graph::lemma_cycle_vertex_tainted(preds, cyc);
}

/// Every vertex reachable from a cycle is reported as `CycleDetected` too:
/// a cycle poisons exactly its downstream, and nothing else.
pub proof fn lemma_downstream_of_cycle_detected(
    kinds: Seq<NodeKind>,
    preds: Seq<Seq<int>>,
    outs: Seq<Outcome>,
    cyc: Seq<int>,
    path: Seq<int>,
)
    requires
        evaluation_post(kinds, preds, outs),
        is_walk(preds, cyc),
        cyc.first() == cyc.last(),
        cyc.len() >= 2,
        is_walk(preds, path),
        path.first() == cyc.last(),
    ensures
        outs[path.last()] == Outcome::CycleDetected,
{
    crate::graph::lemma_reachable_from_cycle_tainted(preds, cyc, path);
}

/// One evaluation run's output: node id to computed value or error, fresh on
/// each run and covering every live node.
pub struct ResultMap {
    ids: Vec<u64>,
    outcomes: Vec<Outcome>,
}

impl ResultMap {
    /// The covered node ids, in node insertion order.
    pub closed spec fn ids_seq(self) -> Seq<u64> {
        self.ids@
    }

    /// The outcomes, aligned with `ids_seq`.
    pub closed spec fn outcomes(self) -> Seq<Outcome> {
        self.outcomes@
    }

    pub open spec fn wf(self) -> bool {
        &&& self.ids_seq().no_duplicates()
        &&& self.outcomes().len() == self.ids_seq().len()
    }

    pub open spec fn contains_id(self, id: u64) -> bool {
        self.ids_seq().contains(id)
    }

    /// The outcome recorded for `id` (meaningful only when `contains_id`).
    pub open spec fn outcome_of(self, id: u64) -> Outcome {
        self.outcomes()[find_index(self.ids_seq(), id)]
    }

    /// A map with no entries, the state before any run.
    pub fn new_empty() -> (r: ResultMap)
        ensures
            r.wf(),
            r.ids_seq() == Seq::<u64>::empty(),
            r.outcomes() == Seq::<Outcome>::empty(),
    {
        ResultMap { ids: Vec::new(), outcomes: Vec::new() }
    }

    pub fn len(&self) -> (r: usize)
        ensures
            r == self.ids_seq().len(),
    {
        self.ids.len()
    }

    pub fn id_at(&self, i: usize) -> (r: u64)
        requires
            i < self.ids_seq().len(),
        ensures
            r == self.ids_seq()[i as int],
    {
        self.ids[i]
    }

    pub fn outcome_at(&self, i: usize) -> (r: Outcome)
        requires
            i < self.outcomes().len(),
        ensures
            r == self.outcomes()[i as int],
    {
        self.outcomes[i]
    }

    /// Looks the outcome of a node up by id.
    pub fn get(&self, id: u64) -> (r: Option<Outcome>)
        requires
            self.wf(),
        ensures
            r is Some <==> self.contains_id(id),
            r matches Some(o) ==> o == self.outcome_of(id),
    {
        let mut i: usize = 0;
        while i < self.ids.len()
            invariant
                0 <= i <= self.ids.len(),
                self.wf(),
                forall|j: int| 0 <= j < i ==> self.ids_seq()[j] != id,
            decreases self.ids.len() - i,
        {
            if self.ids[i] == id {
                proof {
                    lemma_find_index_unique(self.ids_seq(), id, i as int);
                }
                return Some(self.outcomes[i]);
            }
            i = i + 1;
        }
        proof {
            if self.contains_id(id) {
                let j = choose|j: int| 0 <= j < self.ids_seq().len() && self.ids_seq()[j] == id;
                assert(self.ids_seq()[j] != id);
            }
        }
        None
    }
}

/// Whether every predecessor of `v` is finished.
fn preds_all_done(g: &GraphIndex, done: &Vec<bool>, v: usize) -> (b: bool)
    requires
        g.wf(),
        v < g.n(),
        done@.len() == g.n(),
    ensures
        b <==> forall|k: int|
            0 <= k < g.preds_view()[v as int].len() ==> done@[g.preds_view()[v as int][k]],
{
    let ps = g.preds_of(v);
    let ghost pv = g.preds_view()[v as int];
    let m = ps.len();
    let mut k: usize = 0;
    while k < m
        invariant
            0 <= k <= m,
            m == pv.len(),
            g.wf(),
            v < g.n(),
            done@.len() == g.n(),
            pv == g.preds_view()[v as int],
            ps@.map_values(|p: usize| p as int) == pv,
            forall|j: int| 0 <= j < k ==> done@[pv[j]],
        decreases m - k,
    {
        proof {
            assert(pv[k as int] == ps@[k as int] as int);
            assert(0 <= g.preds_view()[v as int][k as int] < g.n());
            assert(0 <= pv[k as int] < g.n());
        }
        if !done[ps[k]] {
            proof {
                assert(!done@[pv[k as int]]);
            }
            return false;
        }
        k = k + 1;
    }
    true
}

/// The ordered predecessor outcomes of `v`.
fn gather_inputs(g: &GraphIndex, outcomes: &Vec<Outcome>, v: usize) -> (r: Vec<Outcome>)
    requires
        g.wf(),
        v < g.n(),
        outcomes@.len() == g.n(),
    ensures
        r@ == eval_inputs(g.preds_view()[v as int], outcomes@),
{
    let ps = g.preds_of(v);
    let ghost pv = g.preds_view()[v as int];
    let m = ps.len();
    let mut r: Vec<Outcome> = Vec::new();
    let mut k: usize = 0;
    while k < m
        invariant
            0 <= k <= m,
            m == pv.len(),
            g.wf(),
            v < g.n(),
            outcomes@.len() == g.n(),
            pv == g.preds_view()[v as int],
            ps@.map_values(|p: usize| p as int) == pv,
            r@.len() == k,
            forall|j: int| 0 <= j < k ==> #[trigger] r@[j] == outcomes@[pv[j]],
        decreases m - k,
    {
        proof {
            assert(pv[k as int] == ps@[k as int] as int);
            assert(0 <= g.preds_view()[v as int][k as int] < g.n());
            assert(0 <= pv[k as int] < g.n());
        }
        r.push(outcomes[ps[k]]);
        k = k + 1;
    }
    proof {
        assert(r@ =~= eval_inputs(pv, outcomes@));
    }
    r
}

/// What one node computes from its gathered inputs.
fn compute(kind: NodeKind, inputs: &Vec<Outcome>) -> (o: Outcome)
    ensures
        o == compute_spec(kind, inputs@),
{
    match kind {
        NodeKind::Source { value } => Outcome::Value { value },
        NodeKind::BinaryCombine => {
            if inputs.len() != 2 {
                Outcome::InsufficientInputs { need: 2, got: inputs.len() }
            } else {
                let a = inputs[0];
                let b = inputs[1];
                match (a, b) {
                    (Outcome::Value { value: x }, Outcome::Value { value: y }) => Outcome::Value {
                        value: x.wrapping_add(y),
                    },
                    _ => Outcome::UpstreamError,
                }
            }
        },
        NodeKind::Sink => {
            if inputs.len() == 0 {
                Outcome::NoInput
            } else if inputs.len() >= 2 {
                Outcome::AmbiguousInput
            } else {
                let a = inputs[0];
                match a {
                    Outcome::Value { .. } => a,
                    _ => Outcome::UpstreamError,
                }
            }
        },
    }
}

/// Runs one evaluation over a snapshot of the stores. Always returns a full
/// map — per-node errors are recorded in it, never raised — and terminates
/// on any finite graph, cyclic or not.
pub fn run(ns: &NodeStore, g: &GraphIndex) -> (r: ResultMap)
    requires
        ns.wf(),
        g.wf(),
        g.ids_seq() == ns.ids(),
    ensures
        r.wf(),
        r.ids_seq() == g.ids_seq(),
        evaluation_post(kinds_of(*ns), g.preds_view(), r.outcomes()),
{
    let n = g.node_count();
    let ghost preds = g.preds_view();
    let ghost kinds = kinds_of(*ns);

    let mut outcomes: Vec<Outcome> = Vec::new();
    let mut done: Vec<bool> = Vec::new();
    let mut i: usize = 0;
    while i < n
        invariant
            0 <= i <= n,
            outcomes@.len() == i,
            done@.len() == i,
            forall|v: int| 0 <= v < i ==> #[trigger] outcomes@[v] == Outcome::CycleDetected,
            forall|v: int| 0 <= v < i ==> !(#[trigger] done@[v]),
        decreases n - i,
    {
        outcomes.push(Outcome::CycleDetected);
        done.push(false);
        i = i + 1;
    }

    let ghost mut sched: Seq<int> = Seq::empty();
    let mut progress: bool = true;
    while progress
        invariant
            n == g.n(),
            ns.wf(),
            g.wf(),
            g.ids_seq() == ns.ids(),
            preds == g.preds_view(),
            kinds == kinds_of(*ns),
            outcomes@.len() == n,
            done@.len() == n,
            sched.no_duplicates(),
            sched.len() <= n,
            forall|k: int| 0 <= k < sched.len() ==> 0 <= #[trigger] sched[k] < n,
            forall|v: int| 0 <= v < n ==> ((#[trigger] done@[v]) <==> sched.contains(v)),
            sched_respects(preds, sched),
            forall|v: int|
                0 <= v < n && !done@[v] ==> #[trigger] outcomes@[v] == Outcome::CycleDetected,
            forall|v: int|
                0 <= v < n && done@[v] ==> #[trigger] outcomes@[v] == compute_spec(
                    kinds[v],
                    eval_inputs(preds[v], outcomes@),
                ),
            !progress ==> stuck(preds, done@),
        decreases 2 * (n - sched.len()) + (if progress {
            1int
        } else {
            0int
        }),
    {
        let mut pick: Option<usize> = None;
        let mut s: usize = 0;
        while s < n
            invariant
                0 <= s <= n,
                n == g.n(),
                g.wf(),
                done@.len() == n,
                preds == g.preds_view(),
                pick is None ==> forall|v: int|
                    0 <= v < s && !done@[v] ==> exists|k: int|
                        0 <= k < preds[v].len() && !done@[preds[v][k]],
                pick matches Some(v) ==> v < n && !done@[v as int] && forall|k: int|
                    0 <= k < preds[v as int].len() ==> done@[preds[v as int][k]],
            decreases n - s,
        {
            if pick.is_none() && !done[s] {
                if preds_all_done(g, &done, s) {
                    pick = Some(s);
                }
            }
            s = s + 1;
        }
        match pick {
            Some(v) => {
                let inputs = gather_inputs(g, &outcomes, v);
                let kind = ns.node_at(v).kind;
                let o = compute(kind, &inputs);
                let ghost outcomes0 = outcomes@;
                let ghost done0 = done@;
                outcomes[v] = o;
                done[v] = true;
                proof {
                    let ghost sched0 = sched;
                    sched = sched.push(v as int);
                    assert(kinds[v as int] == kind);
                    // the new schedule stays duplicate-free and in range
                    assert(!sched0.contains(v as int));
                    assert forall|a: int, b: int|
                        0 <= a < sched.len() && 0 <= b < sched.len() && a != b implies sched[a]
                        != sched[b] by {
                        if a < sched.len() - 1 && b < sched.len() - 1 {
                            assert(sched0[a] != sched0[b]);
                        } else {
                            let c = if a < b { a } else { b };
                            if c < sched.len() - 1 {
                                assert(sched0.contains(sched0[c]) || !sched0.contains(
                                    sched0[c],
                                ));
                                assert(sched[c] == sched0[c]);
                                if sched0[c] == v as int {
                                    assert(sched0.contains(v as int));
                                }
                            }
                        }
                    }
                    lemma_distinct_in_range_len(sched, n as int);
                    // done now matches the extended schedule
                    assert forall|u: int|
                        0 <= u < n implies ((#[trigger] done@[u]) <==> sched.contains(u)) by {
                        if u == v as int {
                            assert(sched[sched.len() - 1] == v as int);
                        } else {
                            if sched.contains(u) {
                                let k = choose|k: int| 0 <= k < sched.len() && sched[k] == u;
                                assert(k < sched.len() - 1);
                                assert(sched0[k] == u);
                            }
                            if sched0.contains(u) {
                                let k = choose|k: int| 0 <= k < sched0.len() && sched0[k] == u;
                                assert(sched[k] == u);
                            }
                        }
                    }
                    // the schedule still respects dependencies
                    assert forall|k: int, m: int|
                        0 <= k < sched.len() && 0 <= m < preds[sched[k]].len() implies sched_before(
                        sched,
                        #[trigger] preds[sched[k]][m],
                        k,
                    ) by {
                        if k < sched.len() - 1 {
                            assert(sched[k] == sched0[k]);
                            assert(sched_before(sched0, preds[sched0[k]][m], k));
                            let k2 = choose|k2: int|
                                0 <= k2 < k && sched0[k2] == preds[sched0[k]][m];
                            assert(sched[k2] == preds[sched[k]][m]);
                        } else {
                            assert(sched[k] == v as int);
                            let p = preds[v as int][m];
                            assert(done0[p]);
                            assert(sched0.contains(p));
                            let k2 = choose|k2: int| 0 <= k2 < sched0.len() && sched0[k2] == p;
                            assert(sched[k2] == p);
                        }
                    }
                    // outcomes of finished vertices are stable: their
                    // predecessors were finished before this step
                    assert forall|u: int|
                        0 <= u < n && done@[u] implies #[trigger] outcomes@[u] == compute_spec(
                        kinds[u],
                        eval_inputs(preds[u], outcomes@),
                    ) by {
                        if u == v as int {
                            assert(inputs@ == eval_inputs(preds[u], outcomes0));
                            assert(eval_inputs(preds[u], outcomes@) =~= eval_inputs(
                                preds[u],
                                outcomes0,
                            )) by {
                                assert forall|j: int|
                                    0 <= j < preds[u].len() implies eval_inputs(
                                    preds[u],
                                    outcomes@,
                                )[j] == eval_inputs(preds[u], outcomes0)[j] by {
                                    assert(preds[u][j] != v as int);
                                }
                            }
                        } else {
                            assert(outcomes0[u] == compute_spec(
                                kinds[u],
                                eval_inputs(preds[u], outcomes0),
                            ));
                            assert(outcomes@[u] == outcomes0[u]);
                            assert(eval_inputs(preds[u], outcomes@) =~= eval_inputs(
                                preds[u],
                                outcomes0,
                            )) by {
                                assert forall|j: int|
                                    0 <= j < preds[u].len() implies eval_inputs(
                                    preds[u],
                                    outcomes@,
                                )[j] == eval_inputs(preds[u], outcomes0)[j] by {
                                    let k0 = choose|k0: int|
                                        0 <= k0 < sched0.len() && sched0[k0] == u;
                                    assert(sched_before(sched0, preds[sched0[k0]][j], k0));
                                    let k2 = choose|k2: int|
                                        0 <= k2 < k0 && sched0[k2] == preds[sched0[k0]][j];
                                    assert(sched0.contains(preds[u][j]));
                                    assert(!sched0.contains(v as int));
                                    assert(preds[u][j] != v as int);
                                }
                            }
                        }
                    }
                }
            },
            None => {
                progress = false;
            },
        }
    }

    proof {
        assert forall|v: int|
            0 <= v < n implies ((#[trigger] outcomes@[v]) == Outcome::CycleDetected <==> tainted(
            preds,
            v,
        )) by {
            if done@[v] {
                lemma_scheduled_untainted(preds, sched, v);
                lemma_compute_not_cycle(kinds[v], eval_inputs(preds[v], outcomes@));
            } else {
                lemma_stuck_tainted(preds, done@, v);
            }
        }
        assert forall|v: int|
            0 <= v < n && !tainted(preds, v) implies (#[trigger] outcomes@[v]) == compute_spec(
            kinds[v],
            eval_inputs(preds[v], outcomes@),
        ) by {
            if !done@[v] {
                lemma_stuck_tainted(preds, done@, v);
            }
        }
    }

    let mut rids: Vec<u64> = Vec::new();
    let mut v: usize = 0;
    while v < n
        invariant
            0 <= v <= n,
            n == g.n(),
            rids@ == g.ids_seq().take(v as int),
        decreases n - v,
    {
        rids.push(g.id_at(v));
        proof {
            assert(rids@ =~= g.ids_seq().take(v + 1));
        }
        v = v + 1;
    }
    proof {
        assert(g.ids_seq().take(n as int) =~= g.ids_seq());
    }
    ResultMap { ids: rids, outcomes }
}

} // verus!
