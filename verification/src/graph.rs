//! The derived directed-graph index: one vertex per live node, one edge per
//! connection whose endpoints are both live. It is rebuilt from the stores
//! after every mutation and is the only structure the evaluator traverses.

use vstd::prelude::*;
use crate::model::{
    dangling_pred, dangling_warnings, find_index, keep, lemma_keep_push,
    lemma_find_index_props, lemma_find_index_unique, live_conn, Connection, ConnectionStore,
    NodeStore, Warning,
};

verus! {

/// Keeps the live connections that target the vertex with index `t`.
pub open spec fn into_pred(ids: Seq<u64>, t: int) -> spec_fn(Connection) -> bool {
    |c: Connection| live_conn(ids, c) && ids[t] == c.target
}

/// The vertex index of a connection's source.
pub open spec fn src_index_fn(ids: Seq<u64>) -> spec_fn(Connection) -> int {
    |c: Connection| find_index(ids, c.source)
}

/// The predecessor vertex indices of vertex `t`: one entry per live
/// connection targeting it, in connection creation order.
pub open spec fn target_preds(ids: Seq<u64>, conns: Seq<Connection>, t: int) -> Seq<int> {
    keep(conns, into_pred(ids, t)).map_values(src_index_fn(ids))
}

/// How one more connection extends the predecessor list of a vertex.
pub proof fn lemma_target_preds_push(ids: Seq<u64>, conns: Seq<Connection>, c: Connection, t: int)
    ensures
        target_preds(ids, conns.push(c), t) == if live_conn(ids, c) && ids[t] == c.target {
            target_preds(ids, conns, t).push(find_index(ids, c.source))
        } else {
            target_preds(ids, conns, t)
        },
{
    lemma_keep_push(conns, c, into_pred(ids, t));
    if live_conn(ids, c) && ids[t] == c.target {
        assert(target_preds(ids, conns.push(c), t) =~= target_preds(ids, conns, t).push(
            find_index(ids, c.source),
        ));
    } else {
        assert(target_preds(ids, conns.push(c), t) =~= target_preds(ids, conns, t));
    }
}

/// How one more connection extends the warning list.
pub proof fn lemma_dangling_warnings_push(ids: Seq<u64>, conns: Seq<Connection>, c: Connection)
    ensures
        dangling_warnings(ids, conns.push(c)) == if !live_conn(ids, c) {
            dangling_warnings(ids, conns).push(Warning::GraphInconsistency { connection_id: c.id })
        } else {
            dangling_warnings(ids, conns)
        },
{
    lemma_keep_push(conns, c, dangling_pred(ids));
    if !live_conn(ids, c) {
        assert(dangling_warnings(ids, conns.push(c)) =~= dangling_warnings(ids, conns).push(
            Warning::GraphInconsistency { connection_id: c.id },
        ));
    } else {
        assert(dangling_warnings(ids, conns.push(c)) =~= dangling_warnings(ids, conns));
    }
}

/// A walk through the predecessor structure: a non-empty vertex sequence in
/// which each vertex is a predecessor of the next.
pub open spec fn is_walk(preds: Seq<Seq<int>>, w: Seq<int>) -> bool {
    &&& w.len() >= 1
    &&& forall|k: int| 0 <= k < w.len() ==> 0 <= #[trigger] w[k] < preds.len()
    &&& forall|k: int| 1 <= k < w.len() ==> preds[#[trigger] w[k]].contains(w[k - 1])
}

/// A vertex lies on a cycle or is reachable from one exactly when some walk
/// with a repeated vertex ends at it.
pub open spec fn tainted(preds: Seq<Seq<int>>, v: int) -> bool {
    exists|w: Seq<int>| is_walk(preds, w) && w.last() == v && !w.no_duplicates()
}

/// A vertex on a cycle is tainted: the cycle itself is a repeating walk.
pub proof fn lemma_cycle_vertex_tainted(preds: Seq<Seq<int>>, cyc: Seq<int>)
    requires
        is_walk(preds, cyc),
        cyc.first() == cyc.last(),
        cyc.len() >= 2,
    ensures
        tainted(preds, cyc.last()),
{
    assert(cyc[0] == cyc[cyc.len() - 1]);
    assert(!cyc.no_duplicates());
}

/// Every vertex reachable from a cycle is tainted: prepending the cycle to
/// the connecting walk yields a repeating walk.
pub proof fn lemma_reachable_from_cycle_tainted(preds: Seq<Seq<int>>, cyc: Seq<int>, path: Seq<int>)
    requires
        is_walk(preds, cyc),
        cyc.first() == cyc.last(),
        cyc.len() >= 2,
        is_walk(preds, path),
        path.first() == cyc.last(),
    ensures
        tainted(preds, path.last()),
{
    let w = cyc + path.drop_first();
    assert(w.len() == cyc.len() + path.len() - 1);
    assert forall|k: int| 0 <= k < w.len() implies 0 <= #[trigger] w[k] < preds.len() by {
        if k < cyc.len() {
            assert(w[k] == cyc[k]);
        } else {
            assert(w[k] == path[k - cyc.len() + 1]);
        }
    }
    assert forall|k: int| 1 <= k < w.len() implies preds[#[trigger] w[k]].contains(w[k - 1]) by {
        if k < cyc.len() {
            assert(w[k] == cyc[k] && w[k - 1] == cyc[k - 1]);
        } else if k == cyc.len() {
            assert(w[k] == path[1] && w[k - 1] == cyc[cyc.len() - 1]);
            assert(cyc[cyc.len() - 1] == path[0]);
            assert(preds[path[1]].contains(path[0]));
        } else {
            assert(w[k] == path[k - cyc.len() + 1] && w[k - 1] == path[k - cyc.len()]);
            assert(preds[path[k - cyc.len() + 1]].contains(path[k - cyc.len()]));
        }
    }
    assert(w[0] == cyc[0]);
    assert(w[cyc.len() - 1] == cyc[cyc.len() - 1]);
    assert(!w.no_duplicates());
    if path.len() >= 2 {
        assert(w.last() == path[path.len() - 1]);
    } else {
        assert(w.last() == cyc.last());
    }
    assert(w.last() == path.last());
}

/// Derived adjacency over the live nodes; read-only once built.
pub struct GraphIndex {
    ids: Vec<u64>,
    preds: Vec<Vec<usize>>,
}

impl GraphIndex {
    /// The vertex ids, in node insertion order.
    pub closed spec fn ids_seq(self) -> Seq<u64> {
        self.ids@
    }

    /// Predecessor vertex indices of each vertex.
    pub closed spec fn preds_view(self) -> Seq<Seq<int>> {
        self.preds@.map_values(|row: Vec<usize>| row@.map_values(|p: usize| p as int))
    }

    /// Number of vertices.
    pub open spec fn n(self) -> int {
        self.ids_seq().len() as int
    }

    pub open spec fn wf(self) -> bool {
        &&& self.ids_seq().no_duplicates()
        &&& self.preds_view().len() == self.n()
        &&& forall|t: int, k: int|
            0 <= t < self.n() && 0 <= k < self.preds_view()[t].len() ==> 0
                <= #[trigger] self.preds_view()[t][k] < self.n()
    }

    /// The index is exactly what the current stores derive: one vertex per
    /// live node in insertion order, one edge per live connection.
    pub open spec fn matches(self, ns: NodeStore, cs: ConnectionStore) -> bool {
        &&& self.ids_seq() == ns.ids()
        &&& self.preds_view().len() == self.n()
        &&& forall|t: int|
            0 <= t < self.n() ==> #[trigger] self.preds_view()[t] == target_preds(
                ns.ids(),
                cs.conns_seq(),
                t,
            )
    }

    pub fn node_count(&self) -> (r: usize)
        ensures
            r == self.n(),
    {
        self.ids.len()
    }

    pub fn id_at(&self, v: usize) -> (r: u64)
        requires
            v < self.n(),
        ensures
            r == self.ids_seq()[v as int],
    {
        self.ids[v]
    }

    /// The predecessor list of vertex `v`, in connection creation order.
    pub fn preds_of(&self, v: usize) -> (r: &Vec<usize>)
        requires
            self.wf(),
            v < self.n(),
        ensures
            r@.map_values(|p: usize| p as int) == self.preds_view()[v as int],
    {
        &self.preds[v]
    }

    /// The vertices that `v` has an edge into, each listed once, in vertex
    /// order.
    pub fn successors_of(&self, v: usize) -> (r: Vec<usize>)
        requires
            self.wf(),
            v < self.n(),
        ensures
            forall|j: int| 0 <= j < r@.len() ==> (#[trigger] r@[j]) < self.n(),
            forall|j: int| 0 <= j && j + 1 < r@.len() ==> r@[j] < #[trigger] r@[j + 1],
            forall|t: usize|
                t < self.n() ==> (#[trigger] r@.contains(t) <==> self.preds_view()[
                    t as int
                ].contains(v as int)),
    {
        let n = self.ids.len();
        let mut r: Vec<usize> = Vec::new();
        let mut t: usize = 0;
        while t < n
            invariant
                0 <= t <= n,
                n == self.n(),
                self.wf(),
                v < self.n(),
                forall|j: int| 0 <= j < r@.len() ==> (#[trigger] r@[j]) < t,
                forall|j: int| 0 <= j && j + 1 < r@.len() ==> r@[j] < #[trigger] r@[j + 1],
                forall|u: usize|
                    u < t ==> (#[trigger] r@.contains(u) <==> self.preds_view()[u as int].contains(
                        v as int,
                    )),
            decreases n - t,
        {
            let ghost r0 = r@;
            let has_edge = row_contains(self.preds_of(t), v);
            if has_edge {
                r.push(t);
            }
            proof {
                assert forall|j: int| 0 <= j && j + 1 < r@.len() implies r@[j] < #[trigger] r@[
                    j + 1
                ] by {
                    if j + 1 < r0.len() {
                        assert(r@[j] == r0[j] && r@[j + 1] == r0[j + 1]);
                    } else {
                        assert(r@[j] == r0[j] && r0[j] < t);
                    }
                }
                assert forall|u: usize|
                    u < t + 1 implies (#[trigger] r@.contains(u) <==> self.preds_view()[
                    u as int
                ].contains(v as int)) by {
                    if u < t {
                        if r0.contains(u) {
                            let j = choose|j: int| 0 <= j < r0.len() && r0[j] == u;
                            assert(r@[j] == u);
                        }
                        if r@.contains(u) {
                            let j = choose|j: int| 0 <= j < r@.len() && r@[j] == u;
                            assert(j < r0.len());
                            assert(r0[j] == u);
                        }
                    } else {
                        if has_edge {
                            assert(r@[r@.len() - 1] == t);
                        } else {
                            if r@.contains(u) {
                                let j = choose|j: int| 0 <= j < r@.len() && r@[j] == u;
                                assert(r@[j] < t);
                            }
                        }
                    }
                }
            }
            t = t + 1;
        }
        r
    }

    /// Builds the index from the current stores. Connections with a missing
    /// endpoint are dropped and reported as `GraphInconsistency` warnings;
    /// editing continues.
    pub fn build(ns: &NodeStore, cs: &ConnectionStore) -> (r: (GraphIndex, Vec<Warning>))
        requires
            ns.wf(),
            cs.wf(),
        ensures
            r.0.wf(),
            r.0.matches(*ns, *cs),
            r.1@ == dangling_warnings(ns.ids(), cs.conns_seq()),
    {
        let n = ns.node_count();
        let m = cs.conn_count();

        let mut ids: Vec<u64> = Vec::new();
        let mut v: usize = 0;
        while v < n
            invariant
                0 <= v <= n,
                n == ns.nodes_seq().len(),
                ns.wf(),
                ids@ == ns.ids().take(v as int),
            decreases n - v,
        {
            ids.push(ns.node_at(v).id);
            proof {
                assert(ids@ =~= ns.ids().take(v + 1));
            }
            v = v + 1;
        }
        proof {
            assert(ns.ids().take(n as int) =~= ns.ids());
        }

        let mut preds: Vec<Vec<usize>> = Vec::new();
        let mut t: usize = 0;
        while t < n
            invariant
                0 <= t <= n,
                n == ns.nodes_seq().len(),
                ns.wf(),
                cs.wf(),
                ids@ == ns.ids(),
                preds@.len() == t,
                forall|u: int|
                    0 <= u < t ==> (#[trigger] preds@[u])@.map_values(|p: usize| p as int)
                        == target_preds(ns.ids(), cs.conns_seq(), u),
                forall|u: int, k: int|
                    0 <= u < t && 0 <= k < preds@[u]@.len() ==> (#[trigger] preds@[u]@[k]) < n,
            decreases n - t,
        {
            let row = build_row(ns, cs, &ids, t);
            preds.push(row);
            t = t + 1;
        }

        let mut warnings: Vec<Warning> = Vec::new();
        let mut j: usize = 0;
        while j < m
            invariant
                0 <= j <= m,
                m == cs.conns_seq().len(),
                ns.wf(),
                cs.wf(),
                ids@ == ns.ids(),
                warnings@ == dangling_warnings(ns.ids(), cs.conns_seq().take(j as int)),
            decreases m - j,
        {
            let c = cs.conn_at(j);
            proof {
                assert(cs.conns_seq().take(j + 1) =~= cs.conns_seq().take(j as int).push(c));
                lemma_dangling_warnings_push(ns.ids(), cs.conns_seq().take(j as int), c);
                lemma_find_index_props(ns.ids(), c.source);
                lemma_find_index_props(ns.ids(), c.target);
            }
            let s_hit = find_in(&ids, c.source);
            let t_hit = find_in(&ids, c.target);
            if s_hit.is_none() || t_hit.is_none() {
                proof {
                    assert(!live_conn(ns.ids(), c));
                }
                warnings.push(Warning::GraphInconsistency { connection_id: c.id });
            } else {
                proof {
                    assert(live_conn(ns.ids(), c));
                }
            }
            j = j + 1;
        }
        proof {
            assert(cs.conns_seq().take(m as int) =~= cs.conns_seq());
        }

        let g = GraphIndex { ids, preds };
        proof {
            assert(g.preds_view().len() == g.n());
            assert forall|u: int|
                0 <= u < g.n() implies #[trigger] g.preds_view()[u] == target_preds(
                ns.ids(),
                cs.conns_seq(),
                u,
            ) by {
                assert(g.preds_view()[u] == g.preds@[u]@.map_values(|p: usize| p as int));
            }
            assert forall|t0: int, k: int|
                0 <= t0 < g.n() && 0 <= k < g.preds_view()[t0].len() implies 0
                <= #[trigger] g.preds_view()[t0][k] < g.n() by {
                assert(g.preds@[t0]@[k] < n);
                assert(g.preds_view()[t0][k] == g.preds@[t0]@[k] as int);
            }
        }
        (g, warnings)
    }
}

/// One predecessor row: scans the connections for live edges into vertex `t`.
fn build_row(ns: &NodeStore, cs: &ConnectionStore, ids: &Vec<u64>, t: usize) -> (row: Vec<usize>)
    requires
        ns.wf(),
        cs.wf(),
        ids@ == ns.ids(),
        t < ns.ids().len(),
    ensures
        row@.map_values(|p: usize| p as int) == target_preds(ns.ids(), cs.conns_seq(), t as int),
        forall|k: int| 0 <= k < row@.len() ==> (#[trigger] row@[k]) < ns.ids().len(),
{
    let m = cs.conn_count();
    let mut row: Vec<usize> = Vec::new();
    let mut j: usize = 0;
    while j < m
        invariant
            0 <= j <= m,
            m == cs.conns_seq().len(),
            ns.wf(),
            cs.wf(),
            ids@ == ns.ids(),
            t < ns.ids().len(),
            row@.map_values(|p: usize| p as int) == target_preds(
                ns.ids(),
                cs.conns_seq().take(j as int),
                t as int,
            ),
            forall|k: int| 0 <= k < row@.len() ==> (#[trigger] row@[k]) < ns.ids().len(),
        decreases m - j,
    {
        let c = cs.conn_at(j);
        proof {
            assert(cs.conns_seq().take(j + 1) =~= cs.conns_seq().take(j as int).push(c));
            lemma_target_preds_push(ns.ids(), cs.conns_seq().take(j as int), c, t as int);
            lemma_find_index_props(ns.ids(), c.source);
            lemma_find_index_props(ns.ids(), c.target);
        }
        let s_hit = find_in(ids, c.source);
        let t_hit = find_in(ids, c.target);
        match (s_hit, t_hit) {
            (Some(s_idx), Some(t_idx)) => {
                if t_idx == t {
                    let ghost row0 = row@;
                    proof {
                        assert(live_conn(ns.ids(), c));
                        let ft = find_index(ns.ids(), c.target);
                        assert(0 <= ft < ns.ids().len());
                        assert(t_idx == ft as usize);
                        assert(ft == t as int);
                        assert(ns.ids()[t as int] == c.target);
                    }
                    row.push(s_idx);
                    proof {
                        let fs = find_index(ns.ids(), c.source);
                        assert(0 <= fs < ns.ids().len());
                        assert(s_idx == fs as usize);
                        assert(s_idx as int == fs);
                        assert(row@ == row0.push(s_idx));
                        assert(row@.map_values(|p: usize| p as int) =~= row0.map_values(
                            |p: usize| p as int,
                        ).push(fs));
                        assert(target_preds(ns.ids(), cs.conns_seq().take(j + 1), t as int)
                            == target_preds(ns.ids(), cs.conns_seq().take(j as int), t as int).push(
                            fs,
                        ));
                    }
                } else {
                    proof {
                        if ns.ids()[t as int] == c.target {
                            lemma_find_index_unique(ns.ids(), c.target, t as int);
                        }
                    }
                }
            },
            _ => {
                proof {
                    assert(!live_conn(ns.ids(), c));
                }
            },
        }
        j = j + 1;
    }
    proof {
        assert(cs.conns_seq().take(m as int) =~= cs.conns_seq());
    }
    row
}

/// Whether a predecessor row mentions vertex `v`.
fn row_contains(row: &Vec<usize>, v: usize) -> (b: bool)
    ensures
        b <==> row@.map_values(|p: usize| p as int).contains(v as int),
{
    let n = row.len();
    let mut i: usize = 0;
    while i < n
        invariant
            0 <= i <= n,
            n == row@.len(),
            forall|j: int| 0 <= j < i ==> row@[j] != v,
        decreases n - i,
    {
        if row[i] == v {
            proof {
                assert(row@.map_values(|p: usize| p as int)[i as int] == v as int);
            }
            return true;
        }
        i = i + 1;
    }
    proof {
        let rv = row@.map_values(|p: usize| p as int);
        if rv.contains(v as int) {
            let j = choose|j: int| 0 <= j < rv.len() && rv[j] == v as int;
            assert(row@[j] != v);
            assert(rv[j] == row@[j] as int);
        }
    }
    false
}

/// Linear search for an id among the vertex ids.
fn find_in(ids: &Vec<u64>, id: u64) -> (r: Option<usize>)
    requires
        ids@.no_duplicates(),
    ensures
        ids@.len() <= usize::MAX,
        ids@.contains(id) ==> r == Some(find_index(ids@, id) as usize) && 0 <= find_index(ids@, id)
            < ids@.len(),
        !ids@.contains(id) ==> r is None,
{
    let n = ids.len();
    let mut i: usize = 0;
    while i < n
        invariant
            0 <= i <= n,
            n == ids@.len(),
            ids@.no_duplicates(),
            forall|j: int| 0 <= j < i ==> ids@[j] != id,
        decreases n - i,
    {
        if ids[i] == id {
            proof {
                lemma_find_index_unique(ids@, id, i as int);
            }
            return Some(i);
        }
        i = i + 1;
    }
    proof {
        if ids@.contains(id) {
            let j = choose|j: int| 0 <= j < ids@.len() && ids@[j] == id;
            assert(ids@[j] != id);
        }
    }
    None
}

} // verus!
