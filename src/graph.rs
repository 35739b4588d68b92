//! Graph view: a directed graph whose nodes are the instances of a store
//! (calculations first, then data) and whose edges run from each input to
//! its calculation and from each calculation to its outputs. It is rebuilt
//! on every call and never stored.

use vstd::prelude::*;
use petgraph::graph::{Graph, NodeIndex};
use petgraph::Directed;
use crate::model::{ids_view, GraphError};
use crate::template::contains_id;
use crate::store::{calc_ids, data_ids, unique, Database, DatabaseView};
use crate::text::copy_text;

verus! {

#[verifier::external_type_specification]
#[verifier::external_body]
#[verifier::reject_recursive_types(N)]
#[verifier::reject_recursive_types(E)]
#[verifier::reject_recursive_types(Ty)]
#[verifier::reject_recursive_types(Ix)]
pub struct ExGraph<N, E, Ty, Ix>(Graph<N, E, Ty, Ix>);

#[verifier::external_type_specification]
#[verifier::external_body]
pub struct ExDirected(Directed);

/// Number of nodes of a petgraph graph.
pub uninterp spec fn graph_size(g: Graph<(), (), Directed, u32>) -> nat;

/// Edges of a petgraph graph, in the order they were added.
pub uninterp spec fn graph_edges(g: Graph<(), (), Directed, u32>) -> Seq<(int, int)>;

/// `p` follows edges of the list from its first to its last node.
pub open spec fn is_walk(edges: Seq<(int, int)>, p: Seq<int>) -> bool {
    p.len() >= 1 && forall|i: int| 0 <= i < p.len() - 1 ==> #[trigger] edges.contains((p[i], p[i + 1]))
}

/// Some walk leads from `a` to `b` (a node reaches itself).
pub open spec fn reachable(edges: Seq<(int, int)>, a: int, b: int) -> bool {
    exists|p: Seq<int>| is_walk(edges, p) && p[0] == a && p.last() == b
}

/// Relies on `Graph::new`: a graph without nodes or edges.
#[verifier::external_body]
fn graph_new() -> (g: Graph<(), (), Directed, u32>)
    ensures
        graph_size(g) == 0,
        graph_edges(g) == Seq::<(int, int)>::empty(),
{
    Graph::new()
}

/// Relies on `Graph::add_node`: the new node's index is the former node
/// count; it panics only when that index is the index type's maximum.
#[verifier::external_body]
fn graph_add_node(g: &mut Graph<(), (), Directed, u32>) -> (r: usize)
    requires
        graph_size(*old(g)) < u32::MAX,
    ensures
        r == graph_size(*old(g)),
        graph_size(*final(g)) == graph_size(*old(g)) + 1,
        graph_edges(*final(g)) == graph_edges(*old(g)),
{
    g.add_node(()).index()
}

/// Relies on `Graph::add_edge`: appends an edge from `a` to `b`; it panics
/// when a node is missing or the edge index would be the index type's maximum.
#[verifier::external_body]
fn graph_add_edge(g: &mut Graph<(), (), Directed, u32>, a: usize, b: usize)
    requires
        a < graph_size(*old(g)),
        b < graph_size(*old(g)),
        graph_edges(*old(g)).len() + 1 < u32::MAX,
    ensures
        graph_size(*final(g)) == graph_size(*old(g)),
        graph_edges(*final(g)) == graph_edges(*old(g)).push((a as int, b as int)),
{
    g.add_edge(NodeIndex::new(a), NodeIndex::new(b), ());
}

/// Relies on `petgraph::algo::has_path_connecting`: a depth-first search
/// from `from` along outgoing edges, which visits `from` itself first.
#[verifier::external_body]
fn graph_has_path(g: &Graph<(), (), Directed, u32>, from: usize, to: usize) -> (r: bool)
    requires
        from < graph_size(*g),
        to < graph_size(*g),
    ensures
        r == reachable(graph_edges(*g), from as int, to as int),
{
    petgraph::algo::has_path_connecting(g, NodeIndex::new(from), NodeIndex::new(to), None)
}

/// Whether position `to` can be reached from position `from` in a built view.
pub fn graph_has_path_view(view: &GraphView, from: usize, to: usize) -> (r: bool)
    requires
        from < graph_size(view.graph),
        to < graph_size(view.graph),
    ensures
        r == reachable(graph_edges(view.graph), from as int, to as int),
{
    graph_has_path(&view.graph, from, to)
}

/// Number of positions of a store: calculations, then data.
pub open spec fn node_count(db: DatabaseView) -> int {
    (db.calcs.len() + db.datas.len()) as int
}

/// A directed edge between positions: input data to calculation, or
/// calculation to output data.
pub open spec fn flow_edge(db: DatabaseView, i: int, j: int) -> bool {
    let nc = db.calcs.len() as int;
    let n = node_count(db);
    ||| 0 <= j < nc && nc <= i < n && db.calcs[j].incoming.contains(db.datas[i - nc].id)
    ||| 0 <= i < nc && nc <= j < n && db.calcs[i].outcoming.contains(db.datas[j - nc].id)
}

/// An edge of the view: a flow edge, or, when `both`, a flow edge either way.
pub open spec fn view_edge(db: DatabaseView, both: bool, i: int, j: int) -> bool {
    flow_edge(db, i, j) || (both && flow_edge(db, j, i))
}

/// A walk of the view.
pub open spec fn view_walk(db: DatabaseView, both: bool, p: Seq<int>) -> bool {
    p.len() >= 1 && forall|i: int| 0 <= i < p.len() - 1 ==> #[trigger] view_edge(db, both, p[i], p[i + 1])
}

/// Position `b` can be reached from position `a` in the view.
pub open spec fn reaches(db: DatabaseView, both: bool, a: int, b: int) -> bool {
    exists|p: Seq<int>| view_walk(db, both, p) && p[0] == a && p.last() == b
}

/// Total number of input and output references of the first `n` calculations.
pub open spec fn ref_count(db: DatabaseView, n: int) -> int
    decreases n,
{
    if n <= 0 {
        0
    } else {
        ref_count(db, n - 1) + db.calcs[n - 1].incoming.len() + db.calcs[n - 1].outcoming.len()
    }
}

/// Position of the data instance named `x`.
pub open spec fn data_pos(db: DatabaseView, x: Seq<char>) -> int {
    db.calcs.len() + choose|j: int| 0 <= j < db.datas.len() && db.datas[j].id == x
}

/// Edges for the first `m` references of `refs`, a list of calculation `k`:
/// one edge per reference, from the data to `k` for an input and from `k`
/// to the data for an output, followed by the reverse edge when `both`.
pub open spec fn ref_edges(db: DatabaseView, both: bool, k: int, refs: Seq<Seq<char>>, input: bool, m: int) -> Seq<(int, int)>
    decreases m,
{
    if m <= 0 {
        Seq::empty()
    } else {
        let p = data_pos(db, refs[m - 1]);
        let fwd = if input { (p, k) } else { (k, p) };
        let bwd = if input { (k, p) } else { (p, k) };
        ref_edges(db, both, k, refs, input, m - 1) + if both { seq![fwd, bwd] } else { seq![fwd] }
    }
}

/// Edges of calculation `k`: its inputs, then its outputs.
pub open spec fn calc_edges(db: DatabaseView, both: bool, k: int) -> Seq<(int, int)> {
    ref_edges(db, both, k, db.calcs[k].incoming, true, db.calcs[k].incoming.len() as int) + ref_edges(
        db,
        both,
        k,
        db.calcs[k].outcoming,
        false,
        db.calcs[k].outcoming.len() as int,
    )
}

/// Edges of the first `n` calculations, in order.
pub open spec fn view_edges(db: DatabaseView, both: bool, n: int) -> Seq<(int, int)>
    decreases n,
{
    if n <= 0 {
        Seq::empty()
    } else {
        view_edges(db, both, n - 1) + calc_edges(db, both, n - 1)
    }
}

proof fn lemma_ref_edges_len(db: DatabaseView, both: bool, k: int, refs: Seq<Seq<char>>, input: bool, m: int)
    requires
        m >= 0,
    ensures
        ref_edges(db, both, k, refs, input, m).len() == (if both { 2 * m } else { m }),
    decreases m,
{
    if m > 0 {
        lemma_ref_edges_len(db, both, k, refs, input, m - 1);
    }
}

/// The view has one edge per input or output reference, two with `both`.
pub proof fn lemma_view_edges_len(db: DatabaseView, both: bool, n: int)
    requires
        0 <= n <= db.calcs.len(),
    ensures
        view_edges(db, both, n).len() == (if both { 2 * ref_count(db, n) } else { ref_count(db, n) }),
    decreases n,
{
    if n > 0 {
        lemma_view_edges_len(db, both, n - 1);
        let c = db.calcs[n - 1];
        lemma_ref_edges_len(db, both, n - 1, c.incoming, true, c.incoming.len() as int);
        lemma_ref_edges_len(db, both, n - 1, c.outcoming, false, c.outcoming.len() as int);
    }
}

/// The view of a store fits petgraph's default 32-bit indices.
pub open spec fn fits_view(db: DatabaseView) -> bool {
    node_count(db) < u32::MAX && 2 * ref_count(db, db.calcs.len() as int) + 2 < u32::MAX
}

/// A built view: the petgraph graph, with the store's identifiers as labels.
pub struct GraphView {
    pub graph: Graph<(), (), Directed, u32>,
    pub labels: Vec<String>,
    pub n_calc: usize,
}

impl GraphView {
    /// The view represents `db`: positions and labels match, and the edges
    /// are exactly the view edges.
    pub open spec fn represents(&self, db: DatabaseView, both: bool) -> bool {
        &&& self.n_calc == db.calcs.len()
        &&& graph_size(self.graph) == node_count(db)
        &&& ids_view(self.labels@) == calc_ids(db.calcs) + data_ids(db.datas)
        &&& forall|i: int, j: int| #[trigger] graph_edges(self.graph).contains((i, j)) <==> view_edge(db, both, i, j)
    }
}

proof fn lemma_ref_count_mono(db: DatabaseView, a: int, b: int)
    requires
        0 <= a <= b,
    ensures
        ref_count(db, a) <= ref_count(db, b),
    decreases b - a,
{
    if a < b {
        lemma_ref_count_mono(db, a, b - 1);
    }
}

/// Walks of the petgraph graph are walks of the view and back.
pub proof fn lemma_reachable_reaches(g: GraphView, db: DatabaseView, both: bool, a: int, b: int)
    requires
        g.represents(db, both),
    ensures
        reachable(graph_edges(g.graph), a, b) == reaches(db, both, a, b),
{
    let edges = graph_edges(g.graph);
    if reachable(edges, a, b) {
        let p = choose|p: Seq<int>| is_walk(edges, p) && p[0] == a && p.last() == b;
        assert forall|i: int| 0 <= i < p.len() - 1 implies #[trigger] view_edge(db, both, p[i], p[i + 1]) by {
            assert(edges.contains((p[i], p[i + 1])));
        }
        assert(view_walk(db, both, p));
    }
    if reaches(db, both, a, b) {
        let p = choose|p: Seq<int>| view_walk(db, both, p) && p[0] == a && p.last() == b;
        assert forall|i: int| 0 <= i < p.len() - 1 implies #[trigger] edges.contains((p[i], p[i + 1])) by {
            assert(view_edge(db, both, p[i], p[i + 1]));
        }
        assert(is_walk(edges, p));
    }
}

/// `x` is an input or output of some calculation but no data instance.
pub open spec fn dangling_ref(db: DatabaseView, x: Seq<char>) -> bool {
    &&& exists|k: int| 0 <= k < db.calcs.len() && ((#[trigger] db.calcs[k]).incoming.contains(x) || db.calcs[k].outcoming.contains(x))
    &&& !data_ids(db.datas).contains(x)
}

fn first_missing(refs: &Vec<String>, names: &Vec<String>) -> (r: Option<usize>)
    ensures
        match r {
            Some(i) => i < refs@.len() && !ids_view(names@).contains(refs@[i as int]@),
            None => forall|i: int| 0 <= i < refs@.len() ==> ids_view(names@).contains(#[trigger] refs@[i]@),
        },
{
    let mut i: usize = 0;
    while i < refs.len()
        invariant
            i <= refs@.len(),
            forall|j: int| 0 <= j < i ==> ids_view(names@).contains(#[trigger] refs@[j]@),
        decreases refs@.len() - i,
    {
        if !contains_id(names, &refs[i]) {
            return Some(i);
        }
        i = i + 1;
    }
    None
}

impl Database {
    /// The first input or output, in store order, that names no data
    /// instance.
    pub fn first_dangling_ref(&self) -> (r: Option<String>)
        ensures
            match r {
                Some(x) => dangling_ref(self@, x@),
                None => self@.refs_closed(),
            },
    {
        let ghost db = self@;
        let names = self.ids_of_datas();
        let mut k: usize = 0;
        while k < self.cnodes.len()
            invariant
                db == self@,
                ids_view(names@) == data_ids(db.datas),
                k <= db.calcs.len(),
                forall|j: int, x: Seq<char>|
                    #![trigger db.calcs[j].incoming.contains(x)]
                    #![trigger db.calcs[j].outcoming.contains(x)]
                    0 <= j < k && (db.calcs[j].incoming.contains(x) || db.calcs[j].outcoming.contains(x))
                        ==> data_ids(db.datas).contains(x),
            decreases db.calcs.len() - k,
        {
            let c = &self.cnodes[k];
            assert(db.calcs[k as int] == c@);
            if let Some(i) = first_missing(&c.incoming, &names) {
                assert(db.calcs[k as int].incoming[i as int] == c.incoming@[i as int]@);
                assert(db.calcs[k as int].incoming.contains(c.incoming@[i as int]@));
                return Some(copy_text(&c.incoming[i]));
            }
            if let Some(i) = first_missing(&c.outcoming, &names) {
                assert(db.calcs[k as int].outcoming[i as int] == c.outcoming@[i as int]@);
                assert(db.calcs[k as int].outcoming.contains(c.outcoming@[i as int]@));
                return Some(copy_text(&c.outcoming[i]));
            }
            assert forall|x: Seq<char>|
                (db.calcs[k as int].incoming.contains(x) || db.calcs[k as int].outcoming.contains(x)) implies data_ids(
                db.datas,
            ).contains(x) by {
                if db.calcs[k as int].incoming.contains(x) {
                    let y = choose|y: int| 0 <= y < db.calcs[k as int].incoming.len() && db.calcs[k as int].incoming[y] == x;
                    assert(c.incoming@[y]@ == x);
                } else {
                    let y = choose|y: int| 0 <= y < db.calcs[k as int].outcoming.len() && db.calcs[k as int].outcoming[y] == x;
                    assert(c.outcoming@[y]@ == x);
                }
            }
            k = k + 1;
        }
        None
    }

    /// Builds the graph view, or names a dangling input or output reference.
    pub fn generate_digraph(&self, both: bool) -> (r: Result<GraphView, GraphError>)
        requires
            unique(data_ids(self@.datas)),
            fits_view(self@),
        ensures
            match r {
                Ok(v) => {
                    &&& self@.refs_closed()
                    &&& v.represents(self@, both)
                    &&& graph_edges(v.graph) == view_edges(self@, both, self@.calcs.len() as int)
                },
                Err(e) => !self@.refs_closed() && (e matches GraphError::ReferentialIntegrity(x) && dangling_ref(self@, x@)),
            },
    {
        match self.first_dangling_ref() {
            Some(x) => {
                proof {
                    let k = choose|k: int| 0 <= k < self@.calcs.len() && ((#[trigger] self@.calcs[k]).incoming.contains(x@) || self@.calcs[k].outcoming.contains(x@));
                    if self@.calcs[k].incoming.contains(x@) {
                        assert(self@.calcs[k].incoming.contains(x@));
                    } else {
                        assert(self@.calcs[k].outcoming.contains(x@));
                    }
                }
                Err(GraphError::ReferentialIntegrity(x))
            },
            None => Ok(self.build_graph(both)),
        }
    }

    /// Whether the graph view of this store fits petgraph's default 32-bit
    /// indices (the condition under which it can be built).
    pub fn view_fits(&self) -> (r: bool)
        ensures
            r == fits_view(self@),
    {
        let ghost db = self@;
        let limit: u64 = 0xFFFF_FFFF;
        let nc = self.cnodes.len() as u64;
        let nd = self.dnodes.len() as u64;
        if nc >= limit || nd >= limit || nc + nd >= limit {
            return false;
        }
        let mut total: u64 = 0;
        let mut k: usize = 0;
        while k < self.cnodes.len()
            invariant
                db == self@,
                limit == 0xFFFF_FFFFu64,
                nc == db.calcs.len(),
                nd == db.datas.len(),
                nc + nd < limit,
                k <= db.calcs.len(),
                total == ref_count(db, k as int),
                2 * total + 2 < limit,
            decreases db.calcs.len() - k,
        {
            let a = self.cnodes[k].incoming.len() as u64;
            let b = self.cnodes[k].outcoming.len() as u64;
            if a >= limit || b >= limit || 2 * (total + a + b) + 2 >= limit {
                proof {
                    lemma_ref_count_mono(db, k + 1, db.calcs.len() as int);
                }
                return false;
            }
            total = total + a + b;
            k = k + 1;
        }
        true
    }

    /// Builds the graph view; with `both`, every edge is added in both
    /// directions, which makes reachability undirected.
    #[verifier::rlimit(100)]
    #[verifier::spinoff_prover]
    pub fn build_graph(&self, both: bool) -> (r: GraphView)
        requires
            unique(data_ids(self@.datas)),
            self@.refs_closed(),
            fits_view(self@),
        ensures
            r.represents(self@, both),
            graph_edges(r.graph) == view_edges(self@, both, self@.calcs.len() as int),
            graph_edges(r.graph).len() == if both {
                2 * ref_count(self@, self@.calcs.len() as int)
            } else {
                ref_count(self@, self@.calcs.len() as int)
            },
    {
        let ghost db = self@;
        let nc = self.cnodes.len();
        let nd = self.dnodes.len();
        let mut g = graph_new();
        let mut labels: Vec<String> = Vec::new();
        let mut i: usize = 0;
        while i < nc
            invariant
                db == self@,
                nc == db.calcs.len(),
                nd == db.datas.len(),
                fits_view(db),
                i <= nc,
                graph_size(g) == i,
                graph_edges(g) == Seq::<(int, int)>::empty(),
                labels@.len() == i,
                forall|m: int| 0 <= m < i ==> (#[trigger] labels@[m])@ == db.calcs[m].id,
            decreases nc - i,
        {
            graph_add_node(&mut g);
            labels.push(copy_text(&self.cnodes[i].id));
            i = i + 1;
        }
        let mut d: usize = 0;
        while d < nd
            invariant
                db == self@,
                nc == db.calcs.len(),
                nd == db.datas.len(),
                fits_view(db),
                d <= nd,
                graph_size(g) == nc + d,
                graph_edges(g) == Seq::<(int, int)>::empty(),
                labels@.len() == nc + d,
                forall|m: int| 0 <= m < nc ==> (#[trigger] labels@[m])@ == db.calcs[m].id,
                forall|m: int| nc <= m < nc + d ==> (#[trigger] labels@[m])@ == db.datas[m - nc].id,
            decreases nd - d,
        {
            graph_add_node(&mut g);
            labels.push(copy_text(&self.dnodes[d].id));
            d = d + 1;
        }
        assert(ids_view(labels@) =~= calc_ids(db.calcs) + data_ids(db.datas));
        // Edges, calculation by calculation. An edge is known to be added for
        // every view edge whose calculation end lies before `k`.
        let mut k: usize = 0;
        while k < nc
            invariant
                db == self@,
                unique(data_ids(db.datas)),
                db.refs_closed(),
                nc == db.calcs.len(),
                nd == db.datas.len(),
                fits_view(db),
                k <= nc,
                graph_edges(g) == view_edges(db, both, k as int),
                graph_size(g) == nc + nd,
                graph_edges(g).len() <= 2 * ref_count(db, k as int),
                forall|a: int, b: int| #[trigger] graph_edges(g).contains((a, b)) ==> view_edge(db, both, a, b),
                forall|a: int, b: int|
                    view_edge(db, both, a, b) && ((0 <= a < k) || (0 <= b < k)) ==> #[trigger] graph_edges(g).contains((a, b)),
            decreases nc - k,
        {
            proof {
                lemma_ref_count_mono(db, k + 1, nc as int);
            }
            let c = &self.cnodes[k];
            let ghost base = graph_edges(g).len();
            let mut m: usize = 0;
            while m < c.incoming.len()
                invariant
                    db == self@,
                    unique(data_ids(db.datas)),
                    db.refs_closed(),
                    c == &self.cnodes@[k as int],
                    nc == db.calcs.len(),
                    nd == db.datas.len(),
                    k < nc,
                    fits_view(db),
                    ref_count(db, k + 1) <= ref_count(db, nc as int),
                    m <= c.incoming@.len(),
                    graph_edges(g) == view_edges(db, both, k as int) + ref_edges(db, both, k as int, db.calcs[k as int].incoming, true, m as int),
                    graph_size(g) == nc + nd,
                    base <= 2 * ref_count(db, k as int),
                    graph_edges(g).len() <= base + 2 * m,
                    forall|a: int, b: int| #[trigger] graph_edges(g).contains((a, b)) ==> view_edge(db, both, a, b),
                    forall|a: int, b: int|
                        view_edge(db, both, a, b) && ((0 <= a < k) || (0 <= b < k)) ==> #[trigger] graph_edges(g).contains((a, b)),
                    forall|x: int| 0 <= x < m ==> wired(graph_edges(g), db, both, k as int, #[trigger] c.incoming@[x]@, true),
                decreases c.incoming@.len() - m,
            {
                assert(db.calcs[k as int].incoming[m as int] == c.incoming@[m as int]@);
                assert(db.calcs[k as int].incoming.contains(c.incoming@[m as int]@));
                assert(data_ids(db.datas).contains(c.incoming@[m as int]@));
                let ghost before = graph_edges(g);
                match self.find_data(&c.incoming[m]) {
                    Some(j) => {
                        graph_add_edge(&mut g, nc + j, k);
                        if both {
                            graph_add_edge(&mut g, k, nc + j);
                        }
                        proof {
                            lemma_added(before, graph_edges(g), db, both, k as int, nc + j, true);
                            let x = c.incoming@[m as int]@;
                            let jj = choose|jj: int| 0 <= jj < db.datas.len() && db.datas[jj].id == x;
                            assert(data_ids(db.datas)[jj] == data_ids(db.datas)[j as int]);
                            assert(data_pos(db, x) == nc + j);
                            assert(db.calcs[k as int].incoming[m as int] == x);
                            assert(wired(graph_edges(g), db, both, k as int, c.incoming@[m as int]@, true));
                            assert forall|a: int, b: int|
                                view_edge(db, both, a, b) && ((0 <= a < k) || (0 <= b < k)) implies #[trigger] graph_edges(g).contains((a, b)) by {
                                assert(before.contains((a, b)));
                            }
                        }
                    },
                    None => {
                        proof {
                            let j = choose|j: int| 0 <= j < data_ids(db.datas).len() && data_ids(db.datas)[j] == c.incoming@[m as int]@;
                            assert(db.datas[j].id == c.incoming@[m as int]@);
                        }
                    },
                }
                proof {
                    assert forall|x: int| 0 <= x < m implies wired(graph_edges(g), db, both, k as int, #[trigger] c.incoming@[x]@, true) by {
                        lemma_wired_mono(before, graph_edges(g), db, both, k as int, c.incoming@[x]@, true);
                    }
                }
                proof {
                    let pre = view_edges(db, both, k as int);
                    let r0 = ref_edges(db, both, k as int, db.calcs[k as int].incoming, true, m as int);
                    let r1 = ref_edges(db, both, k as int, db.calcs[k as int].incoming, true, m + 1);
                    assert(graph_edges(g) =~= pre + r1);
                }
                m = m + 1;
            }
            assert(m == c.incoming@.len());
            assert(c.incoming@.len() == db.calcs[k as int].incoming.len());
            assert(c.outcoming@.len() == db.calcs[k as int].outcoming.len());
            assert(graph_edges(g) =~= view_edges(db, both, k as int) + ref_edges(db, both, k as int, db.calcs[k as int].incoming, true, db.calcs[k as int].incoming.len() as int) + ref_edges(db, both, k as int, db.calcs[k as int].outcoming, false, 0));
            let ghost mid = graph_edges(g).len();
            let mut o: usize = 0;
            while o < c.outcoming.len()
                invariant
                    db == self@,
                    unique(data_ids(db.datas)),
                    db.refs_closed(),
                    c == &self.cnodes@[k as int],
                    nc == db.calcs.len(),
                    nd == db.datas.len(),
                    k < nc,
                    fits_view(db),
                    ref_count(db, k + 1) <= ref_count(db, nc as int),
                    o <= c.outcoming@.len(),
                    graph_edges(g) == view_edges(db, both, k as int) + ref_edges(db, both, k as int, db.calcs[k as int].incoming, true, db.calcs[k as int].incoming.len() as int) + ref_edges(db, both, k as int, db.calcs[k as int].outcoming, false, o as int),
                    graph_size(g) == nc + nd,
                    base <= 2 * ref_count(db, k as int),
                    mid <= base + 2 * c.incoming@.len(),
                    graph_edges(g).len() <= mid + 2 * o,
                    forall|a: int, b: int| #[trigger] graph_edges(g).contains((a, b)) ==> view_edge(db, both, a, b),
                    forall|a: int, b: int|
                        view_edge(db, both, a, b) && ((0 <= a < k) || (0 <= b < k)) ==> #[trigger] graph_edges(g).contains((a, b)),
                    forall|x: int| 0 <= x < c.incoming@.len() ==> wired(graph_edges(g), db, both, k as int, #[trigger] c.incoming@[x]@, true),
                    forall|x: int| 0 <= x < o ==> wired(graph_edges(g), db, both, k as int, #[trigger] c.outcoming@[x]@, false),
                decreases c.outcoming@.len() - o,
            {
                assert(db.calcs[k as int].outcoming[o as int] == c.outcoming@[o as int]@);
                assert(db.calcs[k as int].outcoming.contains(c.outcoming@[o as int]@));
                assert(data_ids(db.datas).contains(c.outcoming@[o as int]@));
                let ghost before = graph_edges(g);
                match self.find_data(&c.outcoming[o]) {
                    Some(j) => {
                        graph_add_edge(&mut g, k, nc + j);
                        if both {
                            graph_add_edge(&mut g, nc + j, k);
                        }
                        proof {
                            lemma_added(before, graph_edges(g), db, both, k as int, nc + j, false);
                            let x = c.outcoming@[o as int]@;
                            let jj = choose|jj: int| 0 <= jj < db.datas.len() && db.datas[jj].id == x;
                            assert(data_ids(db.datas)[jj] == data_ids(db.datas)[j as int]);
                            assert(data_pos(db, x) == nc + j);
                            assert(db.calcs[k as int].outcoming[o as int] == x);
                            assert(wired(graph_edges(g), db, both, k as int, c.outcoming@[o as int]@, false));
                            assert forall|a: int, b: int|
                                view_edge(db, both, a, b) && ((0 <= a < k) || (0 <= b < k)) implies #[trigger] graph_edges(g).contains((a, b)) by {
                                assert(before.contains((a, b)));
                            }
                        }
                    },
                    None => {
                        proof {
                            let j = choose|j: int| 0 <= j < data_ids(db.datas).len() && data_ids(db.datas)[j] == c.outcoming@[o as int]@;
                            assert(db.datas[j].id == c.outcoming@[o as int]@);
                        }
                    },
                }
                proof {
                    assert forall|x: int| 0 <= x < c.incoming@.len() implies wired(graph_edges(g), db, both, k as int, #[trigger] c.incoming@[x]@, true) by {
                        lemma_wired_mono(before, graph_edges(g), db, both, k as int, c.incoming@[x]@, true);
                    }
                    assert forall|x: int| 0 <= x < o implies wired(graph_edges(g), db, both, k as int, #[trigger] c.outcoming@[x]@, false) by {
                        lemma_wired_mono(before, graph_edges(g), db, both, k as int, c.outcoming@[x]@, false);
                    }
                }
                proof {
                    let pre = view_edges(db, both, k as int) + ref_edges(db, both, k as int, db.calcs[k as int].incoming, true, db.calcs[k as int].incoming.len() as int);
                    let r1 = ref_edges(db, both, k as int, db.calcs[k as int].outcoming, false, o + 1);
                    assert(graph_edges(g) =~= pre + r1);
                }
                o = o + 1;
            }
            // Every view edge at calculation `k` is now present.
            assert forall|a: int, b: int|
                view_edge(db, both, a, b) && ((0 <= a < k + 1) || (0 <= b < k + 1)) implies #[trigger] graph_edges(g).contains((a, b)) by {
                if !((0 <= a < k) || (0 <= b < k)) {
                    let e = graph_edges(g);
                    let (inp, dpos) = if flow_edge(db, a, b) {
                        if b == k { (true, a) } else { (false, b) }
                    } else {
                        if a == k { (true, b) } else { (false, a) }
                    };
                    let list = if inp { db.calcs[k as int].incoming } else { db.calcs[k as int].outcoming };
                    let x = choose|x: int| 0 <= x < list.len() && list[x] == db.datas[dpos - nc].id;
                    if inp {
                        assert(c.incoming@[x]@ == db.datas[dpos - nc].id);
                        assert(wired(e, db, both, k as int, c.incoming@[x]@, true));
                    } else {
                        assert(c.outcoming@[x]@ == db.datas[dpos - nc].id);
                        assert(wired(e, db, both, k as int, c.outcoming@[x]@, false));
                    }
                    let jj = choose|jj: int| 0 <= jj < nd && db.datas[jj].id == db.datas[dpos - nc].id && wired_at(e, both, nc as int, k as int, jj, inp);
                    assert(data_ids(db.datas)[jj] == data_ids(db.datas)[dpos - nc]);
                }
            }
            assert(graph_edges(g) =~= view_edges(db, both, k + 1));
            k = k + 1;
        }
        assert forall|a: int, b: int| view_edge(db, both, a, b) implies #[trigger] graph_edges(g).contains((a, b)) by {
            if flow_edge(db, a, b) {
                assert((0 <= a < nc) || (0 <= b < nc));
            } else {
                assert(flow_edge(db, b, a));
                assert((0 <= a < nc) || (0 <= b < nc));
            }
        }
        proof {
            lemma_view_edges_len(db, both, nc as int);
        }
        GraphView { graph: g, labels, n_calc: nc }
    }
}

/// The edges between calculation `k` and data position `nc + j` are
/// present: data to calculation for an input, the other way for an output,
/// and both ways when `both`.
pub open spec fn wired_at(edges: Seq<(int, int)>, both: bool, nc: int, k: int, j: int, input: bool) -> bool {
    let fwd = if input { (nc + j, k) } else { (k, nc + j) };
    let bwd = if input { (k, nc + j) } else { (nc + j, k) };
    edges.contains(fwd) && (both ==> edges.contains(bwd))
}

/// Some data instance named `x` is wired to calculation `k`.
pub open spec fn wired(edges: Seq<(int, int)>, db: DatabaseView, both: bool, k: int, x: Seq<char>, input: bool) -> bool {
    exists|j: int|
        0 <= j < db.datas.len() && db.datas[j].id == x && wired_at(edges, both, db.calcs.len() as int, k, j, input)
}

proof fn lemma_wired_mono(e1: Seq<(int, int)>, e2: Seq<(int, int)>, db: DatabaseView, both: bool, k: int, x: Seq<char>, input: bool)
    requires
        e1.len() <= e2.len(),
        forall|z: int| 0 <= z < e1.len() ==> e2[z] == e1[z],
        wired(e1, db, both, k, x, input),
    ensures
        wired(e2, db, both, k, x, input),
{
    let nc = db.calcs.len() as int;
    let j = choose|j: int| 0 <= j < db.datas.len() && db.datas[j].id == x && wired_at(e1, both, nc, k, j, input);
    let fwd = if input { (nc + j, k) } else { (k, nc + j) };
    let bwd = if input { (k, nc + j) } else { (nc + j, k) };
    let z = choose|z: int| 0 <= z < e1.len() && e1[z] == fwd;
    assert(e2[z] == fwd);
    if both {
        let z2 = choose|z2: int| 0 <= z2 < e1.len() && e1[z2] == bwd;
        assert(e2[z2] == bwd);
    }
    assert(wired_at(e2, both, nc, k, j, input));
}

proof fn lemma_added(e1: Seq<(int, int)>, e2: Seq<(int, int)>, db: DatabaseView, both: bool, k: int, p: int, input: bool)
    requires
        0 <= k < db.calcs.len(),
        db.calcs.len() <= p < node_count(db),
        if input {
            db.calcs[k].incoming.contains(db.datas[p - db.calcs.len()].id)
        } else {
            db.calcs[k].outcoming.contains(db.datas[p - db.calcs.len()].id)
        },
        forall|a: int, b: int| #[trigger] e1.contains((a, b)) ==> view_edge(db, both, a, b),
        e2 == if both {
            if input { e1.push((p, k)).push((k, p)) } else { e1.push((k, p)).push((p, k)) }
        } else {
            if input { e1.push((p, k)) } else { e1.push((k, p)) }
        },
    ensures
        forall|a: int, b: int| #[trigger] e2.contains((a, b)) ==> view_edge(db, both, a, b),
        forall|a: int, b: int| #[trigger] e1.contains((a, b)) ==> e2.contains((a, b)),
        e1.len() <= e2.len() <= e1.len() + 2,
        forall|z: int| 0 <= z < e1.len() ==> e2[z] == e1[z],
        wired(e2, db, both, k, db.datas[p - db.calcs.len()].id, input),
{
    let nc = db.calcs.len() as int;
    assert forall|a: int, b: int| #[trigger] e2.contains((a, b)) implies view_edge(db, both, a, b) by {
        let z = choose|z: int| 0 <= z < e2.len() && e2[z] == (a, b);
        if z < e1.len() {
            assert(e1[z] == (a, b));
            assert(e1.contains((a, b)));
        }
    }
    assert forall|a: int, b: int| #[trigger] e1.contains((a, b)) implies e2.contains((a, b)) by {
        let z = choose|z: int| 0 <= z < e1.len() && e1[z] == (a, b);
        assert(e2[z] == (a, b));
    }
    let fwd = if input { (p, k) } else { (k, p) };
    let bwd = if input { (k, p) } else { (p, k) };
    assert(e2[e1.len() as int] == fwd);
    if both {
        assert(e2[e1.len() as int + 1] == bwd);
    }
    assert(wired_at(e2, both, nc, k, p - nc, input));
}

} // verus!
