//! The template set and the instance graph, with their views and
//! well-formedness.

use vstd::prelude::*;
use crate::model::{CNode, CNodeTemplate, CalcView, DNode, DNodeTemplate, DataView};

verus! {

/// No identifier occurs twice.
pub open spec fn unique(s: Seq<Seq<char>>) -> bool {
    forall|i: int, j: int| 0 <= i < s.len() && 0 <= j < s.len() && i != j ==> s[i] != s[j]
}

/// No identifier of `a` is an identifier of `b`.
pub open spec fn disjoint(a: Seq<Seq<char>>, b: Seq<Seq<char>>) -> bool {
    forall|i: int, j: int| 0 <= i < a.len() && 0 <= j < b.len() ==> #[trigger] a[i] != #[trigger] b[j]
}

/// Identifiers of a list of calculations.
pub open spec fn calc_ids(s: Seq<CalcView>) -> Seq<Seq<char>> {
    s.map_values(|c: CalcView| c.id)
}

/// Identifiers of a list of data instances.
pub open spec fn data_ids(s: Seq<DataView>) -> Seq<Seq<char>> {
    s.map_values(|d: DataView| d.id)
}

/// The blueprint: calculation templates and data templates.
#[derive(Debug)]
pub struct DatabaseTemplate {
    pub cnodes: Vec<CNodeTemplate>,
    pub dnodes: Vec<DNodeTemplate>,
}

/// View of the blueprint.
pub struct TemplateView {
    pub calcs: Seq<CalcView>,
    pub datas: Seq<Seq<char>>,
}

impl View for DatabaseTemplate {
    type V = TemplateView;

    open spec fn view(&self) -> TemplateView {
        TemplateView {
            calcs: self.cnodes@.map_values(|c: CNodeTemplate| c@),
            datas: self.dnodes@.map_values(|d: DNodeTemplate| d@),
        }
    }
}

impl TemplateView {
    /// Template identifiers are unique within each kind.
    pub open spec fn wf(self) -> bool {
        &&& unique(calc_ids(self.calcs))
        &&& unique(self.datas)
    }
}

/// One materialized computation graph together with its blueprint.
#[derive(Debug)]
pub struct Database {
    pub template: DatabaseTemplate,
    pub cnodes: Vec<CNode>,
    pub dnodes: Vec<DNode>,
}

/// View of an instance graph.
pub struct DatabaseView {
    pub template: TemplateView,
    pub calcs: Seq<CalcView>,
    pub datas: Seq<DataView>,
}

impl View for Database {
    type V = DatabaseView;

    open spec fn view(&self) -> DatabaseView {
        DatabaseView {
            template: self.template@,
            calcs: self.cnodes@.map_values(|c: CNode| c@),
            datas: self.dnodes@.map_values(|d: DNode| d@),
        }
    }
}

impl DatabaseView {
    /// Every input and output of a calculation is a data instance of the graph.
    pub open spec fn refs_closed(self) -> bool {
        forall|k: int, x: Seq<char>|
            #![trigger self.calcs[k].incoming.contains(x)]
            #![trigger self.calcs[k].outcoming.contains(x)]
            0 <= k < self.calcs.len() && (self.calcs[k].incoming.contains(x)
                || self.calcs[k].outcoming.contains(x)) ==> data_ids(self.datas).contains(x)
    }

    /// Unique identifiers, no identifier shared by a calculation and a
    /// data instance, and referential integrity.
    pub open spec fn wf(self) -> bool {
        &&& self.template.wf()
        &&& unique(calc_ids(self.calcs))
        &&& unique(data_ids(self.datas))
        &&& disjoint(calc_ids(self.calcs), data_ids(self.datas))
        &&& self.refs_closed()
    }
}

impl DatabaseTemplate {
    /// A copy of the blueprint.
    pub fn copy(&self) -> (r: DatabaseTemplate)
        ensures
            r@ == self@,
    {
        let mut cnodes: Vec<CNodeTemplate> = Vec::new();
        let mut i: usize = 0;
        while i < self.cnodes.len()
            invariant
                i <= self.cnodes@.len(),
                cnodes@.len() == i,
                forall|k: int| 0 <= k < i ==> (#[trigger] cnodes@[k])@ == self.cnodes@[k]@,
            decreases self.cnodes@.len() - i,
        {
            cnodes.push(self.cnodes[i].copy());
            i = i + 1;
        }
        let mut dnodes: Vec<DNodeTemplate> = Vec::new();
        let mut j: usize = 0;
        while j < self.dnodes.len()
            invariant
                j <= self.dnodes@.len(),
                dnodes@.len() == j,
                forall|k: int| 0 <= k < j ==> (#[trigger] dnodes@[k])@ == self.dnodes@[k]@,
            decreases self.dnodes@.len() - j,
        {
            dnodes.push(self.dnodes[j].copy());
            j = j + 1;
        }
        let r = DatabaseTemplate { cnodes, dnodes };
        assert(r@.calcs =~= self@.calcs);
        assert(r@.datas =~= self@.datas);
        r
    }
}

impl Database {
    /// A copy of the whole store.
    pub fn copy(&self) -> (r: Database)
        ensures
            r@ == self@,
    {
        let mut cnodes: Vec<CNode> = Vec::new();
        let mut i: usize = 0;
        while i < self.cnodes.len()
            invariant
                i <= self.cnodes@.len(),
                cnodes@.len() == i,
                forall|k: int| 0 <= k < i ==> (#[trigger] cnodes@[k])@ == self.cnodes@[k]@,
            decreases self.cnodes@.len() - i,
        {
            cnodes.push(self.cnodes[i].copy());
            i = i + 1;
        }
        let mut dnodes: Vec<DNode> = Vec::new();
        let mut j: usize = 0;
        while j < self.dnodes.len()
            invariant
                j <= self.dnodes@.len(),
                dnodes@.len() == j,
                forall|k: int| 0 <= k < j ==> (#[trigger] dnodes@[k])@ == self.dnodes@[k]@,
            decreases self.dnodes@.len() - j,
        {
            dnodes.push(self.dnodes[j].copy());
            j = j + 1;
        }
        let r = Database { template: self.template.copy(), cnodes, dnodes };
        assert(r@.calcs =~= self@.calcs);
        assert(r@.datas =~= self@.datas);
        r
    }
}

} // verus!
