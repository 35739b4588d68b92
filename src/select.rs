//! Selection engine: history, future and branch of a node, extracted by
//! reachability on the graph view.

use vstd::prelude::*;
use crate::graph::{
    flow_edge, fits_view, graph_has_path_view, lemma_reachable_reaches, node_count, reaches, view_edge, view_walk,
    GraphView,
};
use crate::instance::{data_with, has_data};
use crate::model::{CalcView, DataView, GraphError, CNode, DNode};
use crate::store::{calc_ids, data_ids, unique, Database, DatabaseView};
use crate::template::{calc_with, has_calc};

verus! {

/// Position of the node named `name`: the calculation if there is one, else
/// the data instance; -1 when there is neither.
pub open spec fn origin(db: DatabaseView, name: Seq<char>) -> int {
    if has_calc(db.calcs, name) {
        choose|k: int| 0 <= k < db.calcs.len() && (#[trigger] db.calcs[k]).id == name
    } else if has_data(db.datas, name) {
        db.calcs.len() + choose|k: int| 0 <= k < db.datas.len() && (#[trigger] db.datas[k]).id == name
    } else {
        -1
    }
}

/// The calculations among the first `n` whose position satisfies `keep`.
pub open spec fn kept_calcs(db: DatabaseView, keep: spec_fn(int) -> bool, n: int) -> Seq<CalcView>
    decreases n,
{
    if n <= 0 {
        Seq::empty()
    } else if keep(n - 1) {
        kept_calcs(db, keep, n - 1).push(db.calcs[n - 1])
    } else {
        kept_calcs(db, keep, n - 1)
    }
}

/// The data instances among the first `n` whose index satisfies `keep`.
pub open spec fn kept_datas(db: DatabaseView, keep: spec_fn(int) -> bool, n: int) -> Seq<DataView>
    decreases n,
{
    if n <= 0 {
        Seq::empty()
    } else if keep(n - 1) {
        kept_datas(db, keep, n - 1).push(db.datas[n - 1])
    } else {
        kept_datas(db, keep, n - 1)
    }
}

/// Data instance `d` is an input or output of a kept calculation.
pub open spec fn touched(db: DatabaseView, keep: spec_fn(int) -> bool, d: int) -> bool {
    exists|k: int|
        0 <= k < db.calcs.len() && #[trigger] keep(k) && (db.calcs[k].incoming.contains(db.datas[d].id)
            || db.calcs[k].outcoming.contains(db.datas[d].id))
}

/// Calculation position `k` is kept by the history (or, with `future`, the
/// future) of position `o`.
pub open spec fn flow_keep(db: DatabaseView, o: int, future: bool, k: int) -> bool {
    if future {
        reaches(db, false, o, k)
    } else {
        reaches(db, false, k, o)
    }
}

/// The sub-store made of the kept calculations and the data they touch.
pub open spec fn around(db: DatabaseView, keep: spec_fn(int) -> bool) -> DatabaseView {
    DatabaseView {
        template: db.template,
        calcs: kept_calcs(db, keep, db.calcs.len() as int),
        datas: kept_datas(db, |d: int| touched(db, keep, d), db.datas.len() as int),
    }
}

/// Everything that could have contributed to `name`: the calculations with a
/// path to it, with all their inputs and outputs.
pub open spec fn history_spec(db: DatabaseView, name: Seq<char>) -> DatabaseView {
    around(db, |k: int| flow_keep(db, origin(db, name), false, k))
}

/// Everything `name` could contribute to: the calculations reachable from it,
/// with all their inputs and outputs.
pub open spec fn future_spec(db: DatabaseView, name: Seq<char>) -> DatabaseView {
    around(db, |k: int| flow_keep(db, origin(db, name), true, k))
}

/// The connected component of `name` when edge directions are ignored.
pub open spec fn branch_spec(db: DatabaseView, name: Seq<char>) -> DatabaseView {
    DatabaseView {
        template: db.template,
        calcs: kept_calcs(db, |k: int| reaches(db, true, k, origin(db, name)), db.calcs.len() as int),
        datas: kept_datas(
            db,
            |d: int| reaches(db, true, db.calcs.len() + d, origin(db, name)),
            db.datas.len() as int,
        ),
    }
}

proof fn lemma_kept_calcs_ext(db: DatabaseView, f: spec_fn(int) -> bool, g: spec_fn(int) -> bool, n: int)
    requires
        forall|k: int| 0 <= k < n ==> #[trigger] f(k) == g(k),
    ensures
        kept_calcs(db, f, n) == kept_calcs(db, g, n),
    decreases n,
{
    if n > 0 {
        lemma_kept_calcs_ext(db, f, g, n - 1);
    }
}

proof fn lemma_kept_datas_ext(db: DatabaseView, f: spec_fn(int) -> bool, g: spec_fn(int) -> bool, n: int)
    requires
        forall|k: int| 0 <= k < n ==> #[trigger] f(k) == g(k),
    ensures
        kept_datas(db, f, n) == kept_datas(db, g, n),
    decreases n,
{
    if n > 0 {
        lemma_kept_datas_ext(db, f, g, n - 1);
    }
}

proof fn lemma_touched_ext(db: DatabaseView, f: spec_fn(int) -> bool, g: spec_fn(int) -> bool)
    requires
        forall|k: int| 0 <= k < db.calcs.len() ==> #[trigger] f(k) == g(k),
    ensures
        forall|d: int| #[trigger] touched(db, f, d) == touched(db, g, d),
{
    assert forall|d: int| #[trigger] touched(db, f, d) == touched(db, g, d) by {
        if touched(db, f, d) {
            let x = choose|x: int| 0 <= x < db.calcs.len() && #[trigger] f(x) && (db.calcs[x].incoming.contains(db.datas[d].id)
                || db.calcs[x].outcoming.contains(db.datas[d].id));
            assert(g(x));
        }
        if touched(db, g, d) {
            let x = choose|x: int| 0 <= x < db.calcs.len() && #[trigger] g(x) && (db.calcs[x].incoming.contains(db.datas[d].id)
                || db.calcs[x].outcoming.contains(db.datas[d].id));
            assert(f(x));
        }
    }
}

/// A kept list holds a calculation named `x` exactly when a kept position does.
pub proof fn lemma_kept_calcs_member(db: DatabaseView, f: spec_fn(int) -> bool, n: int, x: Seq<char>)
    requires
        0 <= n <= db.calcs.len(),
    ensures
        has_calc(kept_calcs(db, f, n), x) <==> exists|k: int| 0 <= k < n && f(k) && (#[trigger] db.calcs[k]).id == x,
    decreases n,
{
    if n > 0 {
        lemma_kept_calcs_member(db, f, n - 1, x);
        let r = kept_calcs(db, f, n - 1);
        if f(n - 1) {
            if has_calc(r.push(db.calcs[n - 1]), x) {
                let i = choose|i: int| 0 <= i < r.push(db.calcs[n - 1]).len() && (#[trigger] r.push(db.calcs[n - 1])[i]).id == x;
                if i < r.len() {
                    assert(r[i].id == x);
                }
            }
            if exists|k: int| 0 <= k < n && f(k) && (#[trigger] db.calcs[k]).id == x {
                let k = choose|k: int| 0 <= k < n && f(k) && (#[trigger] db.calcs[k]).id == x;
                if k == n - 1 {
                    assert(r.push(db.calcs[n - 1])[r.len() as int].id == x);
                } else {
                    let i = choose|i: int| 0 <= i < r.len() && (#[trigger] r[i]).id == x;
                    assert(r.push(db.calcs[n - 1])[i].id == x);
                }
            }
        }
    }
}

/// A kept list holds a data instance named `x` exactly when a kept index does.
pub proof fn lemma_kept_datas_member(db: DatabaseView, f: spec_fn(int) -> bool, n: int, x: Seq<char>)
    requires
        0 <= n <= db.datas.len(),
    ensures
        has_data(kept_datas(db, f, n), x) <==> exists|k: int| 0 <= k < n && f(k) && (#[trigger] db.datas[k]).id == x,
    decreases n,
{
    if n > 0 {
        lemma_kept_datas_member(db, f, n - 1, x);
        let r = kept_datas(db, f, n - 1);
        if f(n - 1) {
            if has_data(r.push(db.datas[n - 1]), x) {
                let i = choose|i: int| 0 <= i < r.push(db.datas[n - 1]).len() && (#[trigger] r.push(db.datas[n - 1])[i]).id == x;
                if i < r.len() {
                    assert(r[i].id == x);
                }
            }
            if exists|k: int| 0 <= k < n && f(k) && (#[trigger] db.datas[k]).id == x {
                let k = choose|k: int| 0 <= k < n && f(k) && (#[trigger] db.datas[k]).id == x;
                if k == n - 1 {
                    assert(r.push(db.datas[n - 1])[r.len() as int].id == x);
                } else {
                    let i = choose|i: int| 0 <= i < r.len() && (#[trigger] r[i]).id == x;
                    assert(r.push(db.datas[n - 1])[i].id == x);
                }
            }
        }
    }
}

proof fn lemma_kept_calcs_unique(db: DatabaseView, f: spec_fn(int) -> bool, n: int)
    requires
        unique(calc_ids(db.calcs)),
        0 <= n <= db.calcs.len(),
    ensures
        unique(calc_ids(kept_calcs(db, f, n))),
    decreases n,
{
    if n > 0 {
        lemma_kept_calcs_unique(db, f, n - 1);
        let r = kept_calcs(db, f, n - 1);
        if f(n - 1) {
            let c = db.calcs[n - 1];
            lemma_kept_calcs_member(db, f, n - 1, c.id);
            if has_calc(r, c.id) {
                let k = choose|k: int| 0 <= k < n - 1 && f(k) && (#[trigger] db.calcs[k]).id == c.id;
                assert(calc_ids(db.calcs)[k] == calc_ids(db.calcs)[n - 1]);
            }
            assert(calc_ids(r.push(c)) =~= calc_ids(r).push(c.id));
            assert forall|a: int, b: int|
                0 <= a < calc_ids(r.push(c)).len() && 0 <= b < calc_ids(r.push(c)).len() && a != b implies calc_ids(
                r.push(c),
            )[a] != calc_ids(r.push(c))[b] by {
                if a == r.len() {
                    assert(r[b].id != c.id);
                } else if b == r.len() {
                    assert(r[a].id != c.id);
                }
            }
        }
    }
}

proof fn lemma_kept_datas_unique(db: DatabaseView, f: spec_fn(int) -> bool, n: int)
    requires
        unique(data_ids(db.datas)),
        0 <= n <= db.datas.len(),
    ensures
        unique(data_ids(kept_datas(db, f, n))),
    decreases n,
{
    if n > 0 {
        lemma_kept_datas_unique(db, f, n - 1);
        let r = kept_datas(db, f, n - 1);
        if f(n - 1) {
            let d = db.datas[n - 1];
            lemma_kept_datas_member(db, f, n - 1, d.id);
            if has_data(r, d.id) {
                let k = choose|k: int| 0 <= k < n - 1 && f(k) && (#[trigger] db.datas[k]).id == d.id;
                assert(data_ids(db.datas)[k] == data_ids(db.datas)[n - 1]);
            }
            assert(data_ids(r.push(d)) =~= data_ids(r).push(d.id));
            assert forall|a: int, b: int|
                0 <= a < data_ids(r.push(d)).len() && 0 <= b < data_ids(r.push(d)).len() && a != b implies data_ids(
                r.push(d),
            )[a] != data_ids(r.push(d))[b] by {
                if a == r.len() {
                    assert(r[b].id != d.id);
                } else if b == r.len() {
                    assert(r[a].id != d.id);
                }
            }
        }
    }
}

/// `c` is the calculation at a kept position below `n`.
pub open spec fn kept_from(db: DatabaseView, f: spec_fn(int) -> bool, n: int, c: CalcView) -> bool {
    exists|k: int| 0 <= k < n && f(k) && #[trigger] db.calcs[k] == c
}

proof fn lemma_kept_calcs_origin(db: DatabaseView, f: spec_fn(int) -> bool, n: int)
    requires
        0 <= n <= db.calcs.len(),
    ensures
        forall|i: int| 0 <= i < kept_calcs(db, f, n).len() ==> kept_from(db, f, n, #[trigger] kept_calcs(db, f, n)[i]),
    decreases n,
{
    if n > 0 {
        lemma_kept_calcs_origin(db, f, n - 1);
        let r = kept_calcs(db, f, n - 1);
        assert forall|i: int| 0 <= i < kept_calcs(db, f, n).len() implies kept_from(db, f, n, #[trigger] kept_calcs(db, f, n)[i]) by {
            if i < r.len() {
                assert(kept_calcs(db, f, n)[i] == r[i]);
                assert(kept_from(db, f, n - 1, r[i]));
                let k = choose|k: int| 0 <= k < n - 1 && f(k) && #[trigger] db.calcs[k] == r[i];
                assert(db.calcs[k] == kept_calcs(db, f, n)[i]);
            } else {
                assert(f(n - 1));
                assert(kept_calcs(db, f, n)[i] == db.calcs[n - 1]);
            }
        }
    }
}

/// Data kept next to kept calculations, or kept by an index predicate that
/// holds for every data instance a kept calculation lists, close the
/// sub-store.
proof fn lemma_kept_wf(db: DatabaseView, fc: spec_fn(int) -> bool, fd: spec_fn(int) -> bool)
    requires
        db.wf(),
        forall|k: int, j: int|
            0 <= k < db.calcs.len() && 0 <= j < db.datas.len() && #[trigger] fc(k) && (db.calcs[k].incoming.contains(
                db.datas[j].id,
            ) || db.calcs[k].outcoming.contains(db.datas[j].id)) ==> #[trigger] fd(j),
    ensures
        (DatabaseView {
            template: db.template,
            calcs: kept_calcs(db, fc, db.calcs.len() as int),
            datas: kept_datas(db, fd, db.datas.len() as int),
        }).wf(),
{
    let nc = db.calcs.len() as int;
    let nd = db.datas.len() as int;
    let r = DatabaseView {
        template: db.template,
        calcs: kept_calcs(db, fc, nc),
        datas: kept_datas(db, fd, nd),
    };
    lemma_kept_calcs_unique(db, fc, nc);
    lemma_kept_datas_unique(db, fd, nd);
    lemma_kept_calcs_origin(db, fc, nc);
    assert forall|a: int, b: int|
        0 <= a < calc_ids(r.calcs).len() && 0 <= b < data_ids(r.datas).len() implies #[trigger] calc_ids(r.calcs)[a]
            != #[trigger] data_ids(r.datas)[b] by {
        assert(r.calcs[a] == kept_calcs(db, fc, nc)[a]);
        assert(kept_from(db, fc, nc, kept_calcs(db, fc, nc)[a]));
        let k = choose|k: int| 0 <= k < nc && fc(k) && #[trigger] db.calcs[k] == kept_calcs(db, fc, nc)[a];
        let x = r.datas[b].id;
        lemma_kept_datas_member(db, fd, nd, x);
        assert(has_data(r.datas, x));
        let j = choose|j: int| 0 <= j < nd && fd(j) && (#[trigger] db.datas[j]).id == x;
        assert(calc_ids(db.calcs)[k] != data_ids(db.datas)[j]);
    }
    assert forall|i: int, x: Seq<char>|
        #![trigger r.calcs[i].incoming.contains(x)]
        #![trigger r.calcs[i].outcoming.contains(x)]
        0 <= i < r.calcs.len() && (r.calcs[i].incoming.contains(x) || r.calcs[i].outcoming.contains(x)) implies data_ids(
            r.datas,
        ).contains(x) by {
        assert(r.calcs[i] == kept_calcs(db, fc, nc)[i]);
        assert(kept_from(db, fc, nc, kept_calcs(db, fc, nc)[i]));
        let k = choose|k: int| 0 <= k < nc && fc(k) && #[trigger] db.calcs[k] == kept_calcs(db, fc, nc)[i];
        if r.calcs[i].incoming.contains(x) {
            assert(db.calcs[k].incoming.contains(x));
        } else {
            assert(db.calcs[k].outcoming.contains(x));
        }
        assert(data_ids(db.datas).contains(x));
        let j = choose|j: int| 0 <= j < data_ids(db.datas).len() && data_ids(db.datas)[j] == x;
        assert(db.datas[j].id == x);
        assert(fd(j));
        lemma_kept_datas_member(db, fd, nd, x);
        assert(has_data(r.datas, x));
        let q = choose|q: int| 0 <= q < r.datas.len() && (#[trigger] r.datas[q]).id == x;
        assert(data_ids(r.datas)[q] == x);
    }
}

/// A walk can be extended by an edge in front.
proof fn lemma_reaches_prepend(db: DatabaseView, both: bool, a: int, b: int, o: int)
    requires
        view_edge(db, both, a, b),
        reaches(db, both, b, o),
    ensures
        reaches(db, both, a, o),
{
    let p = choose|p: Seq<int>| view_walk(db, both, p) && p[0] == b && p.last() == o;
    let q = seq![a] + p;
    assert forall|i: int| 0 <= i < q.len() - 1 implies #[trigger] view_edge(db, both, q[i], q[i + 1]) by {
        if i > 0 {
            assert(q[i] == p[i - 1] && q[i + 1] == p[i]);
            assert(view_edge(db, both, p[i - 1], p[(i - 1) + 1]));
        }
    }
    assert(view_walk(db, both, q));
    assert(q.last() == o);
}

/// A walk of the directed view that ends at a data instance has a last
/// step from a calculation producing it; the calculation is reached too.
proof fn lemma_last_producer(db: DatabaseView, a: int, d: int)
    requires
        0 <= a < db.calcs.len(),
        0 <= d < db.datas.len(),
        reaches(db, false, a, db.calcs.len() + d),
    ensures
        exists|x: int|
            0 <= x < db.calcs.len() && reaches(db, false, a, x) && #[trigger] db.calcs[x].outcoming.contains(
                db.datas[d].id,
            ),
{
    let nc = db.calcs.len() as int;
    let p = choose|p: Seq<int>| view_walk(db, false, p) && p[0] == a && p.last() == nc + d;
    let n = p.len() as int;
    assert(n >= 2);
    let x = p[n - 2];
    let i = n - 2;
    assert(view_edge(db, false, p[i], p[i + 1]));
    assert(flow_edge(db, x, nc + d));
    let q = p.subrange(0, n - 1);
    assert forall|i: int| 0 <= i < q.len() - 1 implies #[trigger] view_edge(db, false, q[i], q[i + 1]) by {
        assert(q[i] == p[i] && q[i + 1] == p[i + 1]);
        assert(view_edge(db, false, p[i], p[i + 1]));
    }
    assert(view_walk(db, false, q));
    assert(q.last() == x);
    assert(reaches(db, false, a, x));
}

/// For every calculation `c` in the history of `n`, `n` is in the future of `c`.
pub proof fn lemma_history_future(db: DatabaseView, n: Seq<char>, c: Seq<char>)
    requires
        db.wf(),
        has_calc(db.calcs, n) || has_data(db.datas, n),
        has_calc(history_spec(db, n).calcs, c),
    ensures
        has_calc(future_spec(db, c).calcs, n) || has_data(future_spec(db, c).datas, n),
{
    let nc = db.calcs.len() as int;
    let on = origin(db, n);
    let hk = |k: int| flow_keep(db, on, false, k);
    lemma_kept_calcs_member(db, hk, nc, c);
    let k = choose|k: int| 0 <= k < nc && hk(k) && (#[trigger] db.calcs[k]).id == c;
    assert(has_calc(db.calcs, c));
    let kc = choose|j: int| 0 <= j < db.calcs.len() && (#[trigger] db.calcs[j]).id == c;
    assert(calc_ids(db.calcs)[kc] == calc_ids(db.calcs)[k]);
    assert(origin(db, c) == k);
    let fk = |j: int| flow_keep(db, origin(db, c), true, j);
    if has_calc(db.calcs, n) {
        let kn = choose|j: int| 0 <= j < db.calcs.len() && (#[trigger] db.calcs[j]).id == n;
        assert(on == kn);
        assert(fk(kn));
        lemma_kept_calcs_member(db, fk, nc, n);
        assert(has_calc(future_spec(db, c).calcs, n));
    } else {
        let dn = choose|j: int| 0 <= j < db.datas.len() && (#[trigger] db.datas[j]).id == n;
        assert(on == nc + dn);
        lemma_last_producer(db, k, dn);
        let x = choose|x: int|
            0 <= x < db.calcs.len() && reaches(db, false, k, x) && #[trigger] db.calcs[x].outcoming.contains(
                db.datas[dn].id,
            );
        assert(fk(x));
        let tk = |d: int| touched(db, fk, d);
        assert(tk(dn));
        lemma_kept_datas_member(db, tk, db.datas.len() as int, n);
        assert(has_data(future_spec(db, c).datas, n));
    }
}

impl Database {
    /// Position of the node named `name` in the graph view.
    pub fn origin_of(&self, name: &String) -> (r: Option<usize>)
        requires
            self@.wf(),
            fits_view(self@),
        ensures
            match r {
                Some(p) => p == origin(self@, name@) && p < node_count(self@),
                None => origin(self@, name@) == -1,
            },
    {
        let ghost db = self@;
        match self.find_calc(name) {
            Some(k) => {
                proof {
                    let j = choose|j: int| 0 <= j < db.calcs.len() && (#[trigger] db.calcs[j]).id == name@;
                    assert(calc_ids(db.calcs)[j] == calc_ids(db.calcs)[k as int]);
                }
                Some(k)
            },
            None => match self.find_data(name) {
                Some(d) => {
                    proof {
                        let j = choose|j: int| 0 <= j < db.datas.len() && (#[trigger] db.datas[j]).id == name@;
                        assert(data_ids(db.datas)[j] == data_ids(db.datas)[d as int]);
                    }
                    Some(self.cnodes.len() + d)
                },
                None => None,
            },
        }
    }

    /// The sub-store of the kept calculations and kept data instances, in
    /// store order, with the same blueprint.
    pub fn digraph_to_database(&self, keep_calcs: &Vec<bool>, keep_datas: &Vec<bool>) -> (r: Database)
        requires
            keep_calcs@.len() == self@.calcs.len(),
            keep_datas@.len() == self@.datas.len(),
        ensures
            r@ == (DatabaseView {
                template: self@.template,
                calcs: kept_calcs(self@, |k: int| keep_calcs@[k], self@.calcs.len() as int),
                datas: kept_datas(self@, |d: int| keep_datas@[d], self@.datas.len() as int),
            }),
    {
        let ghost db = self@;
        let mut cnodes: Vec<CNode> = Vec::new();
        let mut i: usize = 0;
        while i < self.cnodes.len()
            invariant
                db == self@,
                keep_calcs@.len() == db.calcs.len(),
                i <= db.calcs.len(),
                cnodes@.map_values(|c: CNode| c@) == kept_calcs(db, |k: int| keep_calcs@[k], i as int),
            decreases db.calcs.len() - i,
        {
            let ghost before = cnodes@.map_values(|c: CNode| c@);
            if keep_calcs[i] {
                cnodes.push(self.cnodes[i].copy());
                assert(cnodes@.map_values(|c: CNode| c@) =~= before.push(db.calcs[i as int]));
            }
            i = i + 1;
        }
        let mut dnodes: Vec<DNode> = Vec::new();
        let mut j: usize = 0;
        while j < self.dnodes.len()
            invariant
                db == self@,
                keep_datas@.len() == db.datas.len(),
                j <= db.datas.len(),
                dnodes@.map_values(|d: DNode| d@) == kept_datas(db, |d: int| keep_datas@[d], j as int),
            decreases db.datas.len() - j,
        {
            let ghost before = dnodes@.map_values(|d: DNode| d@);
            if keep_datas[j] {
                dnodes.push(self.dnodes[j].copy());
                assert(dnodes@.map_values(|d: DNode| d@) =~= before.push(db.datas[j as int]));
            }
            j = j + 1;
        }
        Database { template: self.template.copy(), cnodes, dnodes }
    }

    /// For each data instance, whether a kept calculation lists it.
    fn touched_by(&self, keep_calcs: &Vec<bool>) -> (r: Vec<bool>)
        requires
            keep_calcs@.len() == self@.calcs.len(),
        ensures
            r@.len() == self@.datas.len(),
            forall|d: int| 0 <= d < r@.len() ==> r@[d] == touched(self@, |k: int| keep_calcs@[k], d),
    {
        let ghost db = self@;
        let mut r: Vec<bool> = Vec::new();
        let mut d: usize = 0;
        while d < self.dnodes.len()
            invariant
                db == self@,
                keep_calcs@.len() == db.calcs.len(),
                d <= db.datas.len(),
                r@.len() == d,
                forall|e: int| 0 <= e < d ==> r@[e] == touched(db, |k: int| keep_calcs@[k], e),
            decreases db.datas.len() - d,
        {
            let id = &self.dnodes[d].id;
            let mut found = false;
            let mut k: usize = 0;
            while k < self.cnodes.len()
                invariant
                    db == self@,
                    keep_calcs@.len() == db.calcs.len(),
                    d < db.datas.len(),
                    db.calcs.len() == self.cnodes@.len(),
                    id@ == db.datas[d as int].id,
                    k <= db.calcs.len(),
                    found == exists|x: int|
                        0 <= x < k && #[trigger] keep_calcs@[x] && (db.calcs[x].incoming.contains(db.datas[d as int].id)
                            || db.calcs[x].outcoming.contains(db.datas[d as int].id)),
                decreases db.calcs.len() - k,
            {
                let ghost was = found;
                if keep_calcs[k] && !found {
                    let c = &self.cnodes[k];
                    let mut hit = false;
                    let mut m: usize = 0;
                    while m < c.incoming.len()
                        invariant
                            db == self@,
                            d < db.datas.len(),
                            id@ == db.datas[d as int].id,
                            k < self.cnodes@.len(),
                            c == &self.cnodes@[k as int],
                            m <= c.incoming@.len(),
                            hit == exists|y: int| 0 <= y < m && (#[trigger] c.incoming@[y])@ == id@,
                        decreases c.incoming@.len() - m,
                    {
                        if c.incoming[m] == *id {
                            hit = true;
                        }
                        m = m + 1;
                    }
                    let mut o: usize = 0;
                    while o < c.outcoming.len()
                        invariant
                            db == self@,
                            d < db.datas.len(),
                            id@ == db.datas[d as int].id,
                            k < self.cnodes@.len(),
                            c == &self.cnodes@[k as int],
                            o <= c.outcoming@.len(),
                            hit == ((exists|y: int| 0 <= y < c.incoming@.len() && (#[trigger] c.incoming@[y])@ == id@)
                                || exists|y: int| 0 <= y < o && (#[trigger] c.outcoming@[y])@ == id@),
                        decreases c.outcoming@.len() - o,
                    {
                        if c.outcoming[o] == *id {
                            hit = true;
                        }
                        o = o + 1;
                    }
                    proof {
                        let cv = db.calcs[k as int];
                        assert(cv == self.cnodes@[k as int]@);
                        assert(cv.incoming.len() == c.incoming@.len());
                        assert(cv.outcoming.len() == c.outcoming@.len());
                        if cv.incoming.contains(id@) {
                            let y = choose|y: int| 0 <= y < cv.incoming.len() && cv.incoming[y] == id@;
                            assert(c.incoming@[y]@ == id@);
                        }
                        if cv.outcoming.contains(id@) {
                            let y = choose|y: int| 0 <= y < cv.outcoming.len() && cv.outcoming[y] == id@;
                            assert(c.outcoming@[y]@ == id@);
                        }
                        if exists|y: int| 0 <= y < c.incoming@.len() && (#[trigger] c.incoming@[y])@ == id@ {
                            let y = choose|y: int| 0 <= y < c.incoming@.len() && (#[trigger] c.incoming@[y])@ == id@;
                            assert(cv.incoming[y] == id@);
                        }
                        if exists|y: int| 0 <= y < c.outcoming@.len() && (#[trigger] c.outcoming@[y])@ == id@ {
                            let y = choose|y: int| 0 <= y < c.outcoming@.len() && (#[trigger] c.outcoming@[y])@ == id@;
                            assert(cv.outcoming[y] == id@);
                        }
                    }
                    assert(hit == (db.calcs[k as int].incoming.contains(id@) || db.calcs[k as int].outcoming.contains(id@)));
                    found = hit;
                }
                proof {
                    let idd = db.datas[d as int].id;
                    if found && !was {
                        assert(keep_calcs@[k as int] && (db.calcs[k as int].incoming.contains(idd)
                            || db.calcs[k as int].outcoming.contains(idd)));
                    }
                    if !found {
                        assert forall|x: int| 0 <= x < k + 1 implies !(#[trigger] keep_calcs@[x] && (db.calcs[x].incoming.contains(idd)
                            || db.calcs[x].outcoming.contains(idd))) by {
                            if x < k {
                                assert(!was);
                            } else if keep_calcs@[k as int] {
                                assert(!was);
                            }
                        }
                    }
                }
                k = k + 1;
            }
            proof {
                let g = |k: int| keep_calcs@[k];
                let idd = db.datas[d as int].id;
                if found {
                    let x = choose|x: int|
                        0 <= x < db.calcs.len() && #[trigger] keep_calcs@[x] && (db.calcs[x].incoming.contains(idd)
                            || db.calcs[x].outcoming.contains(idd));
                    assert(g(x));
                }
                if touched(db, g, d as int) {
                    let x = choose|x: int|
                        0 <= x < db.calcs.len() && #[trigger] g(x) && (db.calcs[x].incoming.contains(idd)
                            || db.calcs[x].outcoming.contains(idd));
                    assert(keep_calcs@[x]);
                }
            }
            r.push(found);
            d = d + 1;
        }
        r
    }

    /// Positions kept by the history (or, with `future`, the future) of
    /// `name`: the calculations with a path to (from) it, and the data
    /// instances they list.
    pub fn select_node_history_or_future(&self, name: &String, future: bool) -> (r: Result<(Vec<bool>, Vec<bool>), GraphError>)
        requires
            self@.wf(),
            fits_view(self@),
        ensures
            match r {
                Ok((kc, kd)) => {
                    let o = origin(self@, name@);
                    &&& o >= 0
                    &&& kc@.len() == self@.calcs.len()
                    &&& kd@.len() == self@.datas.len()
                    &&& forall|k: int| 0 <= k < kc@.len() ==> kc@[k] == flow_keep(self@, o, future, k)
                    &&& forall|d: int| 0 <= d < kd@.len() ==> kd@[d] == touched(self@, |k: int| kc@[k], d)
                },
                Err(e) => origin(self@, name@) == -1 && (e matches GraphError::NotFound(n) && n@ == name@),
            },
    {
        let ghost db = self@;
        let o = match self.origin_of(name) {
            Some(p) => p,
            None => {
                return Err(GraphError::NotFound(crate::text::copy_text(name)));
            },
        };
        let view = self.build_graph(false);
        let mut kc: Vec<bool> = Vec::new();
        let mut k: usize = 0;
        while k < self.cnodes.len()
            invariant
                db == self@,
                view.represents(db, false),
                o < node_count(db),
                k <= db.calcs.len(),
                kc@.len() == k,
                forall|j: int| 0 <= j < k ==> kc@[j] == flow_keep(db, o as int, future, j),
            decreases db.calcs.len() - k,
        {
            let hit = if future {
                graph_has_path_view(&view, o, k)
            } else {
                graph_has_path_view(&view, k, o)
            };
            proof {
                if future {
                    lemma_reachable_reaches(view, db, false, o as int, k as int);
                } else {
                    lemma_reachable_reaches(view, db, false, k as int, o as int);
                }
            }
            kc.push(hit);
            k = k + 1;
        }
        let kd = self.touched_by(&kc);
        Ok((kc, kd))
    }

    /// Positions kept by the history of `name` (see
    /// `select_node_history_or_future`).
    pub fn select_node_history(&self, name: String) -> (r: Result<(Vec<bool>, Vec<bool>), GraphError>)
        requires
            self@.wf(),
            fits_view(self@),
        ensures
            match r {
                Ok((kc, kd)) => {
                    let o = origin(self@, name@);
                    &&& o >= 0
                    &&& kc@.len() == self@.calcs.len()
                    &&& kd@.len() == self@.datas.len()
                    &&& forall|k: int| 0 <= k < kc@.len() ==> kc@[k] == flow_keep(self@, o, false, k)
                    &&& forall|d: int| 0 <= d < kd@.len() ==> kd@[d] == touched(self@, |k: int| kc@[k], d)
                },
                Err(e) => origin(self@, name@) == -1 && (e matches GraphError::NotFound(n) && n@ == name@),
            },
    {
        self.select_node_history_or_future(&name, false)
    }

    /// Positions kept by the future of `name` (see
    /// `select_node_history_or_future`).
    pub fn select_node_future(&self, name: String) -> (r: Result<(Vec<bool>, Vec<bool>), GraphError>)
        requires
            self@.wf(),
            fits_view(self@),
        ensures
            match r {
                Ok((kc, kd)) => {
                    let o = origin(self@, name@);
                    &&& o >= 0
                    &&& kc@.len() == self@.calcs.len()
                    &&& kd@.len() == self@.datas.len()
                    &&& forall|k: int| 0 <= k < kc@.len() ==> kc@[k] == flow_keep(self@, o, true, k)
                    &&& forall|d: int| 0 <= d < kd@.len() ==> kd@[d] == touched(self@, |k: int| kc@[k], d)
                },
                Err(e) => origin(self@, name@) == -1 && (e matches GraphError::NotFound(n) && n@ == name@),
            },
    {
        self.select_node_history_or_future(&name, true)
    }

    /// The history (or, with `future`, the future) of `name` as a sub-store.
    fn select_flow(&self, name: &String, future: bool) -> (r: Result<Database, GraphError>)
        requires
            self@.wf(),
            fits_view(self@),
        ensures
            match r {
                Ok(sub) => {
                    &&& origin(self@, name@) >= 0
                    &&& sub@ == around(self@, |k: int| flow_keep(self@, origin(self@, name@), future, k))
                    &&& sub@.wf()
                },
                Err(e) => origin(self@, name@) == -1 && (e matches GraphError::NotFound(n) && n@ == name@),
            },
    {
        match self.select_node_history_or_future(name, future) {
            Ok((kc, kd)) => {
                let sub = self.digraph_to_database(&kc, &kd);
                proof {
                    let db = self@;
                    let f = |k: int| flow_keep(db, origin(db, name@), future, k);
                    let h = |k: int| kc@[k];
                    assert forall|k: int| 0 <= k < db.calcs.len() implies #[trigger] h(k) == f(k) by {
                        assert(kc@[k] == flow_keep(db, origin(db, name@), future, k));
                    }
                    lemma_touched_ext(db, h, f);
                    lemma_kept_calcs_ext(db, h, f, db.calcs.len() as int);
                    lemma_kept_wf(db, f, |d: int| touched(db, f, d));
                    lemma_kept_datas_ext(db, |d: int| kd@[d], |d: int| touched(db, f, d), db.datas.len() as int);
                }
                Ok(sub)
            },
            Err(e) => Err(e),
        }
    }

    /// Everything that could have contributed to `name`.
    pub fn select_history(&self, name: String) -> (r: Result<Database, GraphError>)
        requires
            self@.wf(),
            fits_view(self@),
        ensures
            match r {
                Ok(sub) => origin(self@, name@) >= 0 && sub@ == history_spec(self@, name@) && sub@.wf(),
                Err(e) => origin(self@, name@) == -1 && (e matches GraphError::NotFound(n) && n@ == name@),
            },
    {
        self.select_flow(&name, false)
    }

    /// Everything `name` could contribute to.
    pub fn select_future(&self, name: String) -> (r: Result<Database, GraphError>)
        requires
            self@.wf(),
            fits_view(self@),
        ensures
            match r {
                Ok(sub) => origin(self@, name@) >= 0 && sub@ == future_spec(self@, name@) && sub@.wf(),
                Err(e) => origin(self@, name@) == -1 && (e matches GraphError::NotFound(n) && n@ == name@),
            },
    {
        self.select_flow(&name, true)
    }

    /// The connected component of `name`, ignoring edge directions.
    pub fn select_branch(&self, name: String) -> (r: Result<Database, GraphError>)
        requires
            self@.wf(),
            fits_view(self@),
        ensures
            match r {
                Ok(sub) => origin(self@, name@) >= 0 && sub@ == branch_spec(self@, name@) && sub@.wf(),
                Err(e) => origin(self@, name@) == -1 && (e matches GraphError::NotFound(n) && n@ == name@),
            },
    {
        let ghost db = self@;
        let o = match self.origin_of(&name) {
            Some(p) => p,
            None => {
                return Err(GraphError::NotFound(name));
            },
        };
        let view = self.build_graph(true);
        let nc = self.cnodes.len();
        let mut keep: Vec<bool> = Vec::new();
        let mut p: usize = 0;
        let n = nc + self.dnodes.len();
        while p < n
            invariant
                db == self@,
                view.represents(db, true),
                o < node_count(db),
                n == node_count(db),
                nc == db.calcs.len(),
                p <= n,
                keep@.len() == p,
                forall|j: int| 0 <= j < p ==> keep@[j] == reaches(db, true, j, o as int),
            decreases n - p,
        {
            let hit = graph_has_path_view(&view, p, o);
            proof {
                lemma_reachable_reaches(view, db, true, p as int, o as int);
            }
            keep.push(hit);
            p = p + 1;
        }
        let mut kc: Vec<bool> = Vec::new();
        let mut kd: Vec<bool> = Vec::new();
        let mut q: usize = 0;
        while q < n
            invariant
                keep@.len() == n,
                nc <= n,
                q <= n,
                kc@.len() == if q < nc { q as int } else { nc as int },
                kd@.len() == if q < nc { 0 } else { q - nc },
                forall|j: int| 0 <= j < kc@.len() ==> kc@[j] == keep@[j],
                forall|j: int| 0 <= j < kd@.len() ==> kd@[j] == keep@[nc + j],
            decreases n - q,
        {
            if q < nc {
                kc.push(keep[q]);
            } else {
                kd.push(keep[q]);
            }
            q = q + 1;
        }
        let sub = self.digraph_to_database(&kc, &kd);
        proof {
            let fc = |k: int| reaches(db, true, k, origin(db, name@));
            let fd = |d: int| reaches(db, true, db.calcs.len() + d, origin(db, name@));
            lemma_kept_calcs_ext(db, |k: int| kc@[k], fc, db.calcs.len() as int);
            lemma_kept_datas_ext(db, |d: int| kd@[d], fd, db.datas.len() as int);
            let nc = db.calcs.len() as int;
            assert forall|k: int, j: int|
                0 <= k < db.calcs.len() && 0 <= j < db.datas.len() && #[trigger] fc(k) && (db.calcs[k].incoming.contains(
                    db.datas[j].id,
                ) || db.calcs[k].outcoming.contains(db.datas[j].id)) implies #[trigger] fd(j) by {
                if db.calcs[k].incoming.contains(db.datas[j].id) {
                    assert(flow_edge(db, nc + j, k));
                } else {
                    assert(flow_edge(db, k, nc + j));
                }
                assert(view_edge(db, true, nc + j, k));
                lemma_reaches_prepend(db, true, nc + j, k, origin(db, name@));
            }
            lemma_kept_wf(db, fc, fd);
        }
        Ok(sub)
    }
}

} // verus!
