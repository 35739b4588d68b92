//! The instance model: lookup, selection by template and manual
//! registration, plus the blueprint operations reached through a store.

use vstd::prelude::*;
use crate::ids::{find_shared, gen_id, ids_unique, IdGenerator};
use crate::model::{ids_view, same_calc, extras_view, CNodeTemplate, DNode, DNodeTemplate, DataView, CalcView, ExtraData, GraphError, Node, NodeView};
use crate::store::{calc_ids, data_ids, disjoint, unique, Database, DatabaseTemplate, DatabaseView};
use crate::template::{
    calc_with, has_calc, instance_of, leafs_view, new_calc_view, refs_ok, registered, unbound, dangling,
};
use crate::text::copy_text;

verus! {

/// Whether a data instance of the list has identifier `id`.
pub open spec fn has_data(ds: Seq<DataView>, id: Seq<char>) -> bool {
    exists|k: int| 0 <= k < ds.len() && (#[trigger] ds[k]).id == id
}

/// The data instance with identifier `id` (meaningful when `has_data`).
pub open spec fn data_with(ds: Seq<DataView>, id: Seq<char>) -> DataView {
    ds[choose|k: int| 0 <= k < ds.len() && (#[trigger] ds[k]).id == id]
}

/// Views of a list of instances.
pub open spec fn nodes_view(v: Seq<Node>) -> Seq<NodeView> {
    v.map_values(|n: Node| n@)
}

/// The calculations of `cs` made from template `t`, in order.
pub open spec fn calcs_of_template(cs: Seq<CalcView>, t: Seq<char>) -> Seq<NodeView>
    decreases cs.len(),
{
    if cs.len() == 0 {
        Seq::empty()
    } else if cs.last().template == t {
        calcs_of_template(cs.drop_last(), t).push(NodeView::Calculation(cs.last()))
    } else {
        calcs_of_template(cs.drop_last(), t)
    }
}

/// The data instances of `ds` made from template `t`, in order.
pub open spec fn datas_of_template(ds: Seq<DataView>, t: Seq<char>) -> Seq<NodeView>
    decreases ds.len(),
{
    if ds.len() == 0 {
        Seq::empty()
    } else if ds.last().template == t {
        datas_of_template(ds.drop_last(), t).push(NodeView::Data(ds.last()))
    } else {
        datas_of_template(ds.drop_last(), t)
    }
}

impl Database {
    /// An empty store.
    pub fn new() -> (r: Database)
        ensures
            r@.wf(),
            r@.calcs.len() == 0,
            r@.datas.len() == 0,
            r@.template.calcs.len() == 0,
            r@.template.datas.len() == 0,
    {
        Database { template: DatabaseTemplate::new(), cnodes: Vec::new(), dnodes: Vec::new() }
    }

    /// Whether the store is well formed: unique identifiers within each
    /// kind, in the blueprint and in the graph, and every input and output
    /// referring to a data instance.
    pub fn is_well_formed(&self) -> (r: bool)
        ensures
            r == self@.wf(),
    {
        let ghost db = self@;
        let mut tc: Vec<String> = Vec::new();
        let mut i: usize = 0;
        while i < self.template.cnodes.len()
            invariant
                db == self@,
                i <= db.template.calcs.len(),
                tc@.len() == i,
                forall|j: int| 0 <= j < i ==> (#[trigger] tc@[j])@ == db.template.calcs[j].id,
            decreases db.template.calcs.len() - i,
        {
            tc.push(copy_text(&self.template.cnodes[i].id));
            i = i + 1;
        }
        assert(ids_view(tc@) =~= calc_ids(db.template.calcs));
        let mut td: Vec<String> = Vec::new();
        let mut i: usize = 0;
        while i < self.template.dnodes.len()
            invariant
                db == self@,
                i <= db.template.datas.len(),
                td@.len() == i,
                forall|j: int| 0 <= j < i ==> (#[trigger] td@[j])@ == db.template.datas[j],
            decreases db.template.datas.len() - i,
        {
            td.push(copy_text(&self.template.dnodes[i].id));
            i = i + 1;
        }
        assert(ids_view(td@) =~= db.template.datas);
        let mut ic: Vec<String> = Vec::new();
        let mut i: usize = 0;
        while i < self.cnodes.len()
            invariant
                db == self@,
                i <= db.calcs.len(),
                ic@.len() == i,
                forall|j: int| 0 <= j < i ==> (#[trigger] ic@[j])@ == db.calcs[j].id,
            decreases db.calcs.len() - i,
        {
            ic.push(copy_text(&self.cnodes[i].id));
            i = i + 1;
        }
        assert(ids_view(ic@) =~= calc_ids(db.calcs));
        let mut id: Vec<String> = Vec::new();
        let mut i: usize = 0;
        while i < self.dnodes.len()
            invariant
                db == self@,
                i <= db.datas.len(),
                id@.len() == i,
                forall|j: int| 0 <= j < i ==> (#[trigger] id@[j])@ == db.datas[j].id,
            decreases db.datas.len() - i,
        {
            id.push(copy_text(&self.dnodes[i].id));
            i = i + 1;
        }
        assert(ids_view(id@) =~= data_ids(db.datas));
        if !ids_unique(&tc) || !ids_unique(&td) || !ids_unique(&ic) || !ids_unique(&id) {
            return false;
        }
        if let Some(i) = find_shared(&ic, &id) {
            proof {
                let j = choose|j: int| 0 <= j < ids_view(id@).len() && ids_view(id@)[j] == ic@[i as int]@;
                assert(calc_ids(db.calcs)[i as int] == data_ids(db.datas)[j]);
            }
            return false;
        }
        let mut k: usize = 0;
        while k < self.cnodes.len()
            invariant
                db == self@,
                k <= db.calcs.len(),
                forall|j: int, x: Seq<char>|
                    #![trigger db.calcs[j].incoming.contains(x)]
                    #![trigger db.calcs[j].outcoming.contains(x)]
                    0 <= j < k && (db.calcs[j].incoming.contains(x) || db.calcs[j].outcoming.contains(x))
                        ==> data_ids(db.datas).contains(x),
            decreases db.calcs.len() - k,
        {
            let c = &self.cnodes[k];
            let mut m: usize = 0;
            while m < c.incoming.len()
                invariant
                    db == self@,
                    k < db.calcs.len(),
                    c == &self.cnodes@[k as int],
                    m <= c.incoming@.len(),
                    forall|y: int| 0 <= y < m ==> data_ids(db.datas).contains(#[trigger] c.incoming@[y]@),
                decreases c.incoming@.len() - m,
            {
                match self.find_data(&c.incoming[m]) {
                    Some(j) => {
                        assert(data_ids(db.datas)[j as int] == c.incoming@[m as int]@);
                    },
                    None => {
                        proof {
                            assert(db.calcs[k as int].incoming[m as int] == c.incoming@[m as int]@);
                            assert(db.calcs[k as int].incoming.contains(c.incoming@[m as int]@));
                            if data_ids(db.datas).contains(c.incoming@[m as int]@) {
                                let q = choose|q: int| 0 <= q < data_ids(db.datas).len() && data_ids(db.datas)[q] == c.incoming@[m as int]@;
                                assert(db.datas[q].id == c.incoming@[m as int]@);
                            }
                        }
                        return false;
                    },
                }
                m = m + 1;
            }
            let mut o: usize = 0;
            while o < c.outcoming.len()
                invariant
                    db == self@,
                    k < db.calcs.len(),
                    c == &self.cnodes@[k as int],
                    o <= c.outcoming@.len(),
                    forall|y: int| 0 <= y < o ==> data_ids(db.datas).contains(#[trigger] c.outcoming@[y]@),
                decreases c.outcoming@.len() - o,
            {
                match self.find_data(&c.outcoming[o]) {
                    Some(j) => {
                        assert(data_ids(db.datas)[j as int] == c.outcoming@[o as int]@);
                    },
                    None => {
                        proof {
                            assert(db.calcs[k as int].outcoming[o as int] == c.outcoming@[o as int]@);
                            assert(db.calcs[k as int].outcoming.contains(c.outcoming@[o as int]@));
                            if data_ids(db.datas).contains(c.outcoming@[o as int]@) {
                                let q = choose|q: int| 0 <= q < data_ids(db.datas).len() && data_ids(db.datas)[q] == c.outcoming@[o as int]@;
                                assert(db.datas[q].id == c.outcoming@[o as int]@);
                            }
                        }
                        return false;
                    },
                }
                o = o + 1;
            }
            assert forall|x: Seq<char>|
                (db.calcs[k as int].incoming.contains(x) || db.calcs[k as int].outcoming.contains(x))
                    implies data_ids(db.datas).contains(x) by {
                if db.calcs[k as int].incoming.contains(x) {
                    let y = choose|y: int| 0 <= y < db.calcs[k as int].incoming.len() && db.calcs[k as int].incoming[y] == x;
                    assert(c.incoming@[y]@ == x);
                } else {
                    let y = choose|y: int| 0 <= y < db.calcs[k as int].outcoming.len() && db.calcs[k as int].outcoming[y] == x;
                    assert(c.outcoming@[y]@ == x);
                }
            }
            k = k + 1;
        }
        true
    }

    /// An empty store with the same blueprint.
    pub fn generate_empty(&self) -> (r: Database)
        requires
            self@.wf(),
        ensures
            r@.wf(),
            r@.template == self@.template,
            r@.calcs.len() == 0,
            r@.datas.len() == 0,
    {
        let r = Database { template: self.template.copy(), cnodes: Vec::new(), dnodes: Vec::new() };
        assert(calc_ids(r@.calcs) =~= Seq::<Seq<char>>::empty());
        assert(data_ids(r@.datas) =~= Seq::<Seq<char>>::empty());
        r
    }

    /// Position of the calculation instance `id`.
    pub fn find_calc(&self, id: &String) -> (r: Option<usize>)
        ensures
            match r {
                Some(k) => k < self@.calcs.len() && self@.calcs[k as int].id == id@,
                None => !has_calc(self@.calcs, id@),
            },
    {
        let mut i: usize = 0;
        while i < self.cnodes.len()
            invariant
                i <= self.cnodes@.len(),
                forall|j: int| 0 <= j < i ==> (#[trigger] self@.calcs[j]).id != id@,
            decreases self.cnodes@.len() - i,
        {
            if self.cnodes[i].id == *id {
                return Some(i);
            }
            i = i + 1;
        }
        None
    }

    /// Position of the data instance `id`.
    pub fn find_data(&self, id: &String) -> (r: Option<usize>)
        ensures
            match r {
                Some(k) => k < self@.datas.len() && self@.datas[k as int].id == id@,
                None => !has_data(self@.datas, id@),
            },
    {
        let mut i: usize = 0;
        while i < self.dnodes.len()
            invariant
                i <= self.dnodes@.len(),
                forall|j: int| 0 <= j < i ==> (#[trigger] self@.datas[j]).id != id@,
            decreases self.dnodes@.len() - i,
        {
            if self.dnodes[i].id == *id {
                return Some(i);
            }
            i = i + 1;
        }
        None
    }

    /// The calculation or data instance with identifier `id`; a calculation
    /// is found first.
    pub fn get(&self, id: String) -> (r: Option<Node>)
        requires
            self@.wf(),
        ensures
            match r {
                Some(n) => if has_calc(self@.calcs, id@) {
                    n@ == NodeView::Calculation(calc_with(self@.calcs, id@))
                } else {
                    has_data(self@.datas, id@) && n@ == NodeView::Data(data_with(self@.datas, id@))
                },
                None => !has_calc(self@.calcs, id@) && !has_data(self@.datas, id@),
            },
    {
        match self.find_calc(&id) {
            Some(k) => {
                proof {
                    let j = choose|j: int| 0 <= j < self@.calcs.len() && (#[trigger] self@.calcs[j]).id == id@;
                    assert(calc_ids(self@.calcs)[j] == calc_ids(self@.calcs)[k as int]);
                }
                Some(Node::Calculation(self.cnodes[k].copy()))
            },
            None => match self.find_data(&id) {
                Some(k) => {
                    proof {
                        let j = choose|j: int| 0 <= j < self@.datas.len() && (#[trigger] self@.datas[j]).id == id@;
                        assert(data_ids(self@.datas)[j] == data_ids(self@.datas)[k as int]);
                    }
                    Some(Node::Data(self.dnodes[k].copy()))
                },
                None => None,
            },
        }
    }

    /// Every instance: calculations, then data, in store order.
    pub fn to_nodes(&self) -> (r: Vec<Node>)
        ensures
            nodes_view(r@) == self@.calcs.map_values(|c: CalcView| NodeView::Calculation(c)) + self@.datas.map_values(
                |d: DataView| NodeView::Data(d),
            ),
    {
        let ghost db = self@;
        let mut r: Vec<Node> = Vec::new();
        let mut i: usize = 0;
        while i < self.cnodes.len()
            invariant
                db == self@,
                i <= db.calcs.len(),
                r@.len() == i,
                forall|j: int| 0 <= j < i ==> (#[trigger] r@[j])@ == NodeView::Calculation(db.calcs[j]),
            decreases db.calcs.len() - i,
        {
            r.push(Node::Calculation(self.cnodes[i].copy()));
            i = i + 1;
        }
        let mut j: usize = 0;
        while j < self.dnodes.len()
            invariant
                db == self@,
                j <= db.datas.len(),
                r@.len() == db.calcs.len() + j,
                forall|k: int| 0 <= k < db.calcs.len() ==> (#[trigger] r@[k])@ == NodeView::Calculation(db.calcs[k]),
                forall|k: int| 0 <= k < j ==> (#[trigger] r@[db.calcs.len() + k])@ == NodeView::Data(db.datas[k]),
            decreases db.datas.len() - j,
        {
            r.push(Node::Data(self.dnodes[j].copy()));
            j = j + 1;
        }
        assert forall|k: int| 0 <= k < nodes_view(r@).len() implies nodes_view(r@)[k] == (db.calcs.map_values(|c: CalcView| NodeView::Calculation(c)) + db.datas.map_values(
                |d: DataView| NodeView::Data(d),
            ))[k] by {
            if k >= db.calcs.len() {
                assert(r@[db.calcs.len() + (k - db.calcs.len())]@ == NodeView::Data(db.datas[k - db.calcs.len()]));
            }
        }
        assert(nodes_view(r@) =~= db.calcs.map_values(|c: CalcView| NodeView::Calculation(c)) + db.datas.map_values(
                |d: DataView| NodeView::Data(d),
            ));
        r
    }

    /// All instances made from template `template_name`: calculations first,
    /// then data, each in store order.
    pub fn select_similar(&self, template_name: String) -> (r: Vec<Node>)
        ensures
            nodes_view(r@) == calcs_of_template(self@.calcs, template_name@) + datas_of_template(
                self@.datas,
                template_name@,
            ),
    {
        let ghost cs = self@.calcs;
        let ghost ds = self@.datas;
        let mut r: Vec<Node> = Vec::new();
        let mut i: usize = 0;
        while i < self.cnodes.len()
            invariant
                cs == self@.calcs,
                i <= cs.len(),
                nodes_view(r@) == calcs_of_template(cs.subrange(0, i as int), template_name@),
            decreases cs.len() - i,
        {
            let ghost before = nodes_view(r@);
            assert(cs.subrange(0, i + 1).drop_last() =~= cs.subrange(0, i as int));
            if self.cnodes[i].template == template_name {
                r.push(Node::Calculation(self.cnodes[i].copy()));
                assert(nodes_view(r@) =~= before.push(NodeView::Calculation(cs[i as int])));
            }
            i = i + 1;
        }
        assert(cs.subrange(0, cs.len() as int) =~= cs);
        let ghost mid = nodes_view(r@);
        let mut j: usize = 0;
        while j < self.dnodes.len()
            invariant
                ds == self@.datas,
                j <= ds.len(),
                mid == calcs_of_template(cs, template_name@),
                nodes_view(r@) == mid + datas_of_template(ds.subrange(0, j as int), template_name@),
            decreases ds.len() - j,
        {
            let ghost before = nodes_view(r@);
            assert(ds.subrange(0, j + 1).drop_last() =~= ds.subrange(0, j as int));
            if self.dnodes[j].template == template_name {
                r.push(Node::Data(self.dnodes[j].copy()));
                assert(nodes_view(r@) =~= before.push(NodeView::Data(ds[j as int])));
                assert(nodes_view(r@) =~= mid + datas_of_template(ds.subrange(0, j + 1), template_name@));
            } else {
                assert(nodes_view(r@) =~= mid + datas_of_template(ds.subrange(0, j + 1), template_name@));
            }
            j = j + 1;
        }
        assert(ds.subrange(0, ds.len() as int) =~= ds);
        r
    }

    /// Registers one data instance of an existing data template, under
    /// `name` or else a generated identifier.
    pub fn register_dnode(&mut self, template_id: String, name: Option<String>, gen: &mut IdGenerator) -> (r:
        Result<DNode, GraphError>)
        requires
            old(self)@.wf(),
            old(gen).next < u64::MAX,
        ensures
            final(self)@.wf(),
            final(gen).prefix@ == old(gen).prefix@,
            ({
                let id = match name {
                    Some(n) => n@,
                    None => gen_id(old(gen).prefix@, old(gen).next as nat),
                };
                let gen_used = name is None && old(self)@.template.datas.contains(template_id@);
                &&& final(gen).next == if gen_used { old(gen).next + 1 } else { old(gen).next as int }
                &&& match r {
                    Ok(d) => {
                        &&& old(self)@.template.datas.contains(template_id@)
                        &&& !has_data(old(self)@.datas, id)
                        &&& !has_calc(old(self)@.calcs, id)
                        &&& d@ == (DataView { id, template: template_id@ })
                        &&& final(self)@ == (DatabaseView { datas: old(self)@.datas.push(d@), ..old(self)@ })
                    },
                    Err(GraphError::NotFound(t)) => {
                        &&& t@ == template_id@
                        &&& !old(self)@.template.datas.contains(template_id@)
                        &&& final(self)@ == old(self)@
                    },
                    Err(GraphError::DuplicateId(x)) => {
                        &&& old(self)@.template.datas.contains(template_id@)
                        &&& x@ == id
                        &&& (has_data(old(self)@.datas, id) || has_calc(old(self)@.calcs, id))
                        &&& final(self)@ == old(self)@
                    },
                    _ => false,
                }
            }),
    {
        if self.template.find_data(&template_id).is_none() {
            return Err(GraphError::NotFound(template_id));
        }
        let node_id = match name {
            Some(value) => value,
            None => gen.generate_id(),
        };
        if self.find_data(&node_id).is_some() || self.find_calc(&node_id).is_some() {
            return Err(GraphError::DuplicateId(node_id));
        }
        let d = DNode { id: node_id, template: template_id };
        let ghost before = self@;
        self.dnodes.push(d.copy());
        assert(self@.datas =~= before.datas.push(d@));
        assert(self@.calcs =~= before.calcs);
        assert(self@.template == before.template);
        assert(calc_ids(self@.calcs) == calc_ids(before.calcs));
        proof {
            assert forall|a: int, b: int|
                0 <= a < data_ids(self@.datas).len() && 0 <= b < data_ids(self@.datas).len() && a != b
                    implies data_ids(self@.datas)[a] != data_ids(self@.datas)[b] by {
                if a == before.datas.len() {
                    assert(before.datas[b].id != d@.id);
                } else if b == before.datas.len() {
                    assert(before.datas[a].id != d@.id);
                } else {
                    assert(data_ids(before.datas)[a] != data_ids(before.datas)[b]);
                }
            }
            assert forall|k: int, x: Seq<char>|
                #![trigger self@.calcs[k].incoming.contains(x)]
                #![trigger self@.calcs[k].outcoming.contains(x)]
                0 <= k < self@.calcs.len() && (self@.calcs[k].incoming.contains(x)
                    || self@.calcs[k].outcoming.contains(x)) implies data_ids(self@.datas).contains(x) by {
                assert(data_ids(before.datas).contains(x));
                let j = choose|j: int| 0 <= j < data_ids(before.datas).len() && data_ids(before.datas)[j] == x;
                assert(data_ids(self@.datas)[j] == x);
            }
            assert(unique(data_ids(self@.datas)));
            assert(self@.refs_closed());
            assert forall|a: int, b: int|
                0 <= a < calc_ids(self@.calcs).len() && 0 <= b < data_ids(self@.datas).len() implies #[trigger] calc_ids(
                self@.calcs,
            )[a] != #[trigger] data_ids(self@.datas)[b] by {
                if b == before.datas.len() {
                    assert(before.calcs[a].id != d@.id);
                } else {
                    assert(data_ids(before.datas)[b] == data_ids(self@.datas)[b]);
                }
            }
        }
        Ok(d)
    }

    /// Registers a data template in the blueprint.
    pub fn template_register_dnode(&mut self, name: String) -> (r: DNodeTemplate)
        requires
            old(self)@.wf(),
        ensures
            final(self)@.wf(),
            r@ == name@,
            final(self)@.calcs == old(self)@.calcs,
            final(self)@.datas == old(self)@.datas,
            final(self)@.template.calcs == old(self)@.template.calcs,
            final(self)@.template.datas == if old(self)@.template.datas.contains(name@) {
                old(self)@.template.datas
            } else {
                old(self)@.template.datas.push(name@)
            },
    {
        self.template.register_dnode(name)
    }

    /// Registers a calculation template with its extra defaults; an identical
    /// re-registration changes nothing, a different one is a conflict.
    pub fn template_register_cnode(&mut self, name: String, command: String, extra: &Vec<(String, ExtraData)>) -> (r:
        Result<CNodeTemplate, GraphError>)
        requires
            old(self)@.wf(),
        ensures
            final(self)@.wf(),
            final(self)@.calcs == old(self)@.calcs,
            final(self)@.datas == old(self)@.datas,
            ({
                let new = new_calc_view(name@, command@, extras_view(extra@));
                match registered(old(self)@.template, new) {
                    Some(t) => final(self)@.template == t && (r matches Ok(c) && c@ == new),
                    None => final(self)@.template == old(self)@.template && (r matches Err(
                        GraphError::TemplateConflict(n),
                    ) && n@ == name@),
                }
            }),
    {
        self.template.register_cnode_with(name, command, extra)
    }

    /// Instantiates the blueprint of this store (see
    /// `DatabaseTemplate::create_calculation`).
    pub fn template_create_calculation(&self, leafs: &Vec<(String, String)>, gen: &mut IdGenerator) -> (r:
        Result<Database, GraphError>)
        requires
            self@.wf(),
            old(gen).next + self@.template.datas.len() + self@.template.calcs.len() <= u64::MAX,
        ensures
            ({
                let t = self@.template;
                let l = leafs_view(leafs@);
                let start = old(gen).next as nat;
                let prefix = old(gen).prefix@;
                let inst = instance_of(t, l, prefix, start);
                &&& final(gen).prefix@ == prefix
                &&& match r {
                    Ok(db) => {
                        &&& refs_ok(t)
                        &&& forall|x: Seq<char>| !unbound(t, l, x)
                        &&& unique(data_ids(inst.datas))
                        &&& disjoint(calc_ids(inst.calcs), data_ids(inst.datas))
                        &&& db@ == inst
                        &&& db@.wf()
                        &&& final(gen).next == start + t.datas.len() + t.calcs.len()
                    },
                    Err(GraphError::ReferentialIntegrity(x)) => {
                        &&& forall|x: Seq<char>| !unbound(t, l, x)
                        &&& dangling(t, x@)
                        &&& final(gen).next == start
                    },
                    Err(GraphError::MissingRootBinding(v)) => {
                        &&& exists|x: Seq<char>| unbound(t, l, x)
                        &&& forall|x: Seq<char>| crate::model::ids_view(v@).contains(x) <==> unbound(t, l, x)
                        &&& final(gen).next == start
                    },
                    Err(GraphError::DuplicateId(x)) => {
                        &&& refs_ok(t)
                        &&& forall|x: Seq<char>| !unbound(t, l, x)
                        &&& !(unique(data_ids(inst.datas)) && disjoint(calc_ids(inst.calcs), data_ids(inst.datas)))
                        &&& data_ids(inst.datas).contains(x@)
                        &&& ((exists|i: int, j: int|
                            0 <= i < j < inst.datas.len() && (#[trigger] inst.datas[i]).id == x@ && (#[trigger] inst.datas[j]).id == x@)
                            || calc_ids(inst.calcs).contains(x@))
                        &&& final(gen).next == start
                    },
                    _ => false,
                }
            }),
    {
        self.template.create_calculation(leafs, gen)
    }
}

} // verus!
