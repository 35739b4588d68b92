//! Canonicalization and merge: structural identity of instances, and the
//! merge of an incoming graph into a global one that collapses the
//! duplicates it recognizes.
//!
//! A calculation is identified by its template and the set of its input
//! identifiers; a data instance produced by a calculation by its template and
//! that calculation's identity; any other data instance by its template and
//! its own identifier. The incoming graph is renamed in two passes: data
//! first, then calculations over the renamed inputs.

use vstd::prelude::*;
use crate::model::{ids_view, same_calc, CNode, CNodeTemplate, CalcView, DNode, DNodeTemplate, DataView, GraphError};
use crate::store::{calc_ids, data_ids, disjoint, unique, Database, DatabaseTemplate, DatabaseView, TemplateView};
use crate::template::{calc_template_equal, calc_with, contains_id, has_calc};
use crate::model::copy_ids;
use crate::ids::find_shared;
use crate::text::copy_text;

verus! {

/// Structural identity of an instance.
pub enum Identity {
    Calculation { template: Seq<char>, inputs: Set<Seq<char>> },
    LeafData { template: Seq<char>, value: Seq<char> },
    DerivedData { template: Seq<char>, calc_template: Seq<char>, calc_inputs: Set<Seq<char>> },
}

/// Executable form of an identity; input lists are compared as sets.
#[derive(Debug)]
pub enum NodeIdentifier {
    Calculation { template: String, input_ids: Vec<String> },
    LeafData { template: String, value: String },
    DerivedData { template: String, calc_template: String, calc_inputs: Vec<String> },
}

impl View for NodeIdentifier {
    type V = Identity;

    open spec fn view(&self) -> Identity {
        match self {
            NodeIdentifier::Calculation { template, input_ids } => Identity::Calculation {
                template: template@,
                inputs: ids_view(input_ids@).to_set(),
            },
            NodeIdentifier::LeafData { template, value } => Identity::LeafData {
                template: template@,
                value: value@,
            },
            NodeIdentifier::DerivedData { template, calc_template, calc_inputs } => Identity::DerivedData {
                template: template@,
                calc_template: calc_template@,
                calc_inputs: ids_view(calc_inputs@).to_set(),
            },
        }
    }
}

/// Identity of a calculation.
pub open spec fn calc_ident(c: CalcView) -> Identity {
    Identity::Calculation { template: c.template, inputs: c.incoming.to_set() }
}

/// Position of the first of the first `n` calculations that lists `x` as
/// an output, or -1.
pub open spec fn producer_in(cs: Seq<CalcView>, x: Seq<char>, n: int) -> int
    decreases n,
{
    if n <= 0 {
        -1
    } else if producer_in(cs, x, n - 1) >= 0 {
        producer_in(cs, x, n - 1)
    } else if cs[n - 1].outcoming.contains(x) {
        n - 1
    } else {
        -1
    }
}

/// Position of the first calculation producing `x`, or -1.
pub open spec fn producer(cs: Seq<CalcView>, x: Seq<char>) -> int {
    producer_in(cs, x, cs.len() as int)
}

/// Identity of a data instance of `db`.
pub open spec fn data_ident(db: DatabaseView, d: DataView) -> Identity {
    let p = producer(db.calcs, d.id);
    if p >= 0 {
        Identity::DerivedData {
            template: d.template,
            calc_template: db.calcs[p].template,
            calc_inputs: db.calcs[p].incoming.to_set(),
        }
    } else {
        Identity::LeafData { template: d.template, value: d.id }
    }
}

/// Identifier of the last of the first `n` calculations with identity `ident`.
pub open spec fn lookup_calc_ident(db: DatabaseView, ident: Identity, n: int) -> Option<Seq<char>>
    decreases n,
{
    if n <= 0 {
        None
    } else if calc_ident(db.calcs[n - 1]) == ident {
        Some(db.calcs[n - 1].id)
    } else {
        lookup_calc_ident(db, ident, n - 1)
    }
}

/// Identifier of the last of the first `n` data instances with identity `ident`.
pub open spec fn lookup_data_ident(db: DatabaseView, ident: Identity, n: int) -> Option<Seq<char>>
    decreases n,
{
    if n <= 0 {
        None
    } else if data_ident(db, db.datas[n - 1]) == ident {
        Some(db.datas[n - 1].id)
    } else {
        lookup_data_ident(db, ident, n - 1)
    }
}

/// Renames of the data pass over the first `n` incoming data instances:
/// a produced (non-root) instance whose identity some global data instance
/// has is renamed to that instance.
pub open spec fn data_renames(inc: DatabaseView, glob: DatabaseView, n: int) -> Seq<(Seq<char>, Seq<char>)>
    decreases n,
{
    if n <= 0 {
        Seq::empty()
    } else {
        let r = data_renames(inc, glob, n - 1);
        let d = inc.datas[n - 1];
        let found = lookup_data_ident(glob, data_ident(inc, d), glob.datas.len() as int);
        if producer(inc.calcs, d.id) >= 0 && found is Some && found->Some_0 != d.id {
            r.push((d.id, found->Some_0))
        } else {
            r
        }
    }
}

/// Renames of the calculation pass over the first `n` calculations: a
/// calculation with inputs whose identity some global calculation has is
/// renamed to it.
pub open spec fn calc_renames(inc: DatabaseView, glob: DatabaseView, n: int) -> Seq<(Seq<char>, Seq<char>)>
    decreases n,
{
    if n <= 0 {
        Seq::empty()
    } else {
        let r = calc_renames(inc, glob, n - 1);
        let c = inc.calcs[n - 1];
        let found = lookup_calc_ident(glob, calc_ident(c), glob.calcs.len() as int);
        if c.incoming.len() > 0 && found is Some && found->Some_0 != c.id {
            r.push((c.id, found->Some_0))
        } else {
            r
        }
    }
}

/// The identifier that `x` is renamed to: the target of its first entry.
pub open spec fn rename_id(map: Seq<(Seq<char>, Seq<char>)>, x: Seq<char>) -> Seq<char>
    decreases map.len(),
{
    if map.len() == 0 {
        x
    } else if map[0].0 == x {
        map[0].1
    } else {
        rename_id(map.drop_first(), x)
    }
}

/// A calculation with every identifier renamed.
pub open spec fn renamed_calc(map: Seq<(Seq<char>, Seq<char>)>, c: CalcView) -> CalcView {
    CalcView {
        id: rename_id(map, c.id),
        incoming: c.incoming.map_values(|x: Seq<char>| rename_id(map, x)),
        outcoming: c.outcoming.map_values(|x: Seq<char>| rename_id(map, x)),
        ..c
    }
}

/// A store with every identifier renamed, in place and in every reference.
pub open spec fn apply_spec(db: DatabaseView, map: Seq<(Seq<char>, Seq<char>)>) -> DatabaseView {
    DatabaseView {
        template: db.template,
        calcs: db.calcs.map_values(|c: CalcView| renamed_calc(map, c)),
        datas: db.datas.map_values(|d: DataView| DataView { id: rename_id(map, d.id), template: d.template }),
    }
}

/// The incoming store after the data pass.
pub open spec fn after_data_pass(inc: DatabaseView, glob: DatabaseView) -> DatabaseView {
    apply_spec(inc, data_renames(inc, glob, inc.datas.len() as int))
}

/// The incoming store after both passes.
pub open spec fn canonical(inc: DatabaseView, glob: DatabaseView) -> DatabaseView {
    let a = after_data_pass(inc, glob);
    apply_spec(a, calc_renames(a, glob, a.calcs.len() as int))
}

/// The `i`-th calculation template of `a` is held by `b` with another
/// definition.
pub open spec fn mismatch_at(a: TemplateView, b: TemplateView, i: int) -> bool {
    0 <= i < a.calcs.len() && has_calc(b.calcs, a.calcs[i].id) && !same_calc(a.calcs[i], calc_with(b.calcs, a.calcs[i].id))
}

/// `k` names the first calculation template of `a` (in store order) that `b`
/// holds with another definition. Data templates are their names alone, so
/// they never differ.
pub open spec fn first_mismatch_is(a: TemplateView, b: TemplateView, k: Seq<char>) -> bool {
    exists|i: int| #[trigger] mismatch_at(a, b, i) && a.calcs[i].id == k && forall|j: int| 0 <= j < i ==> !mismatch_at(a, b, j)
}

/// Every calculation template of `a` that `b` also has is identical there.
pub open spec fn compatible(a: TemplateView, b: TemplateView) -> bool {
    forall|i: int|
        0 <= i < a.calcs.len() && has_calc(b.calcs, #[trigger] a.calcs[i].id) ==> same_calc(
            a.calcs[i],
            calc_with(b.calcs, a.calcs[i].id),
        )
}

/// `existing` followed by the identifiers of `extra` it lacks, in order.
pub open spec fn adopt_ids(existing: Seq<Seq<char>>, extra: Seq<Seq<char>>) -> Seq<Seq<char>>
    decreases extra.len(),
{
    if extra.len() == 0 {
        existing
    } else {
        let r = adopt_ids(existing, extra.drop_last());
        if r.contains(extra.last()) {
            r
        } else {
            r.push(extra.last())
        }
    }
}

/// `existing` followed by the calculations of `extra` whose identifier it
/// lacks, in order.
pub open spec fn adopt_calcs(existing: Seq<CalcView>, extra: Seq<CalcView>) -> Seq<CalcView>
    decreases extra.len(),
{
    if extra.len() == 0 {
        existing
    } else {
        let r = adopt_calcs(existing, extra.drop_last());
        if calc_ids(r).contains(extra.last().id) {
            r
        } else {
            r.push(extra.last())
        }
    }
}

/// `existing` followed by the data instances of `extra` whose identifier it
/// lacks, in order.
pub open spec fn adopt_datas(existing: Seq<DataView>, extra: Seq<DataView>) -> Seq<DataView>
    decreases extra.len(),
{
    if extra.len() == 0 {
        existing
    } else {
        let r = adopt_datas(existing, extra.drop_last());
        if data_ids(r).contains(extra.last().id) {
            r
        } else {
            r.push(extra.last())
        }
    }
}

/// The global store after a merge of `inc`.
pub open spec fn merged(glob: DatabaseView, inc: DatabaseView) -> DatabaseView {
    let c = canonical(inc, glob);
    DatabaseView {
        template: TemplateView {
            calcs: adopt_calcs(glob.template.calcs, inc.template.calcs),
            datas: adopt_ids(glob.template.datas, inc.template.datas),
        },
        calcs: adopt_calcs(glob.calcs, c.calcs),
        datas: adopt_datas(glob.datas, c.datas),
    }
}

/// Pairs of identifiers seen as pairs of character sequences.
pub open spec fn pairs_view(v: Seq<(String, String)>) -> Seq<(Seq<char>, Seq<char>)> {
    v.map_values(|e: (String, String)| (e.0@, e.1@))
}

fn all_in(a: &Vec<String>, b: &Vec<String>) -> (r: bool)
    ensures
        r == forall|i: int| 0 <= i < a@.len() ==> ids_view(b@).contains(#[trigger] a@[i]@),
{
    let mut i: usize = 0;
    while i < a.len()
        invariant
            i <= a@.len(),
            forall|j: int| 0 <= j < i ==> ids_view(b@).contains(#[trigger] a@[j]@),
        decreases a@.len() - i,
    {
        if !contains_id(b, &a[i]) {
            return false;
        }
        i = i + 1;
    }
    true
}

/// Whether two identifier lists hold the same set of identifiers.
pub fn same_id_set(a: &Vec<String>, b: &Vec<String>) -> (r: bool)
    ensures
        r == (ids_view(a@).to_set() == ids_view(b@).to_set()),
{
    let ab = all_in(a, b);
    let ba = all_in(b, a);
    let ghost va = ids_view(a@);
    let ghost vb = ids_view(b@);
    proof {
        if ab && ba {
            assert forall|x: Seq<char>| va.contains(x) <==> vb.contains(x) by {
                if va.contains(x) {
                    let i = choose|i: int| 0 <= i < va.len() && va[i] == x;
                    assert(a@[i]@ == x);
                }
                if vb.contains(x) {
                    let i = choose|i: int| 0 <= i < vb.len() && vb[i] == x;
                    assert(b@[i]@ == x);
                }
            }
            assert(va.to_set() =~= vb.to_set());
        }
        if !ab {
            let i = choose|i: int| 0 <= i < a@.len() && !vb.contains(#[trigger] a@[i]@);
            assert(va[i] == a@[i]@);
            assert(va.to_set().contains(a@[i]@));
            assert(!vb.to_set().contains(a@[i]@));
        }
        if !ba {
            let i = choose|i: int| 0 <= i < b@.len() && !va.contains(#[trigger] b@[i]@);
            assert(vb[i] == b@[i]@);
            assert(vb.to_set().contains(b@[i]@));
            assert(!va.to_set().contains(b@[i]@));
        }
    }
    ab && ba
}

/// Equality of two identities.
pub fn ident_eq(a: &NodeIdentifier, b: &NodeIdentifier) -> (r: bool)
    ensures
        r == (a@ == b@),
{
    match (a, b) {
        (
            NodeIdentifier::Calculation { template: t1, input_ids: i1 },
            NodeIdentifier::Calculation { template: t2, input_ids: i2 },
        ) => *t1 == *t2 && same_id_set(i1, i2),
        (
            NodeIdentifier::LeafData { template: t1, value: v1 },
            NodeIdentifier::LeafData { template: t2, value: v2 },
        ) => *t1 == *t2 && *v1 == *v2,
        (
            NodeIdentifier::DerivedData { template: t1, calc_template: c1, calc_inputs: i1 },
            NodeIdentifier::DerivedData { template: t2, calc_template: c2, calc_inputs: i2 },
        ) => *t1 == *t2 && *c1 == *c2 && same_id_set(i1, i2),
        _ => false,
    }
}

/// Identity of a calculation.
pub fn calc_identity(c: &CNode) -> (r: NodeIdentifier)
    ensures
        r@ == calc_ident(c@),
{
    NodeIdentifier::Calculation { template: copy_text(&c.template), input_ids: copy_ids(&c.incoming) }
}

proof fn lemma_producer_stable(cs: Seq<CalcView>, x: Seq<char>, a: int, b: int)
    requires
        a <= b,
        producer_in(cs, x, a) >= 0,
    ensures
        producer_in(cs, x, b) == producer_in(cs, x, a),
    decreases b - a,
{
    if a < b {
        lemma_producer_stable(cs, x, a, b - 1);
    }
}

/// The rename target of `x`.
pub fn lookup_rename(map: &Vec<(String, String)>, x: &String) -> (r: String)
    ensures
        r@ == rename_id(pairs_view(map@), x@),
{
    let ghost whole = pairs_view(map@);
    assert(whole.subrange(0, whole.len() as int) =~= whole);
    let mut i: usize = 0;
    while i < map.len()
        invariant
            i <= map@.len(),
            whole == pairs_view(map@),
            rename_id(whole, x@) == rename_id(whole.subrange(i as int, whole.len() as int), x@),
        decreases map@.len() - i,
    {
        let ghost rest = whole.subrange(i as int, whole.len() as int);
        if map[i].0 == *x {
            assert(rest[0] == whole[i as int]);
            return copy_text(&map[i].1);
        }
        assert(rest.drop_first() =~= whole.subrange(i + 1, whole.len() as int));
        i = i + 1;
    }
    copy_text(x)
}

fn rename_all(map: &Vec<(String, String)>, v: &Vec<String>) -> (r: Vec<String>)
    ensures
        ids_view(r@) == ids_view(v@).map_values(|x: Seq<char>| rename_id(pairs_view(map@), x)),
{
    let mut r: Vec<String> = Vec::new();
    let mut i: usize = 0;
    while i < v.len()
        invariant
            i <= v@.len(),
            r@.len() == i,
            forall|j: int| 0 <= j < i ==> (#[trigger] r@[j])@ == rename_id(pairs_view(map@), v@[j]@),
        decreases v@.len() - i,
    {
        r.push(lookup_rename(map, &v[i]));
        i = i + 1;
    }
    assert(ids_view(r@) =~= ids_view(v@).map_values(|x: Seq<char>| rename_id(pairs_view(map@), x)));
    r
}

impl Database {
    /// Position of the first calculation listing `x` as an output.
    pub fn producer_of(&self, x: &String) -> (r: Option<usize>)
        ensures
            match r {
                Some(p) => p as int == producer(self@.calcs, x@) && p < self@.calcs.len(),
                None => producer(self@.calcs, x@) == -1,
            },
    {
        let ghost cs = self@.calcs;
        let mut i: usize = 0;
        while i < self.cnodes.len()
            invariant
                cs == self@.calcs,
                i <= cs.len(),
                producer_in(cs, x@, i as int) == -1,
            decreases cs.len() - i,
        {
            if contains_id(&self.cnodes[i].outcoming, x) {
                proof {
                    assert(producer_in(cs, x@, i + 1) == i);
                    lemma_producer_stable(cs, x@, i + 1, cs.len() as int);
                }
                return Some(i);
            }
            i = i + 1;
        }
        None
    }

    /// Identity of a data instance of this store.
    pub fn data_identity(&self, d: &DNode) -> (r: NodeIdentifier)
        ensures
            r@ == data_ident(self@, d@),
    {
        match self.producer_of(&d.id) {
            Some(p) => {
                let c = &self.cnodes[p];
                NodeIdentifier::DerivedData {
                    template: copy_text(&d.template),
                    calc_template: copy_text(&c.template),
                    calc_inputs: copy_ids(&c.incoming),
                }
            },
            None => NodeIdentifier::LeafData { template: copy_text(&d.template), value: copy_text(&d.id) },
        }
    }

    /// The last calculation with identity `ident`.
    pub fn lookup_calc(&self, ident: &NodeIdentifier) -> (r: Option<String>)
        ensures
            match r {
                Some(v) => lookup_calc_ident(self@, ident@, self@.calcs.len() as int) == Some(v@),
                None => lookup_calc_ident(self@, ident@, self@.calcs.len() as int) is None,
            },
    {
        let mut r: Option<String> = None;
        let mut i: usize = 0;
        while i < self.cnodes.len()
            invariant
                i <= self@.calcs.len(),
                match r {
                    Some(v) => lookup_calc_ident(self@, ident@, i as int) == Some(v@),
                    None => lookup_calc_ident(self@, ident@, i as int) is None,
                },
            decreases self@.calcs.len() - i,
        {
            let ci = calc_identity(&self.cnodes[i]);
            if ident_eq(&ci, ident) {
                r = Some(copy_text(&self.cnodes[i].id));
            }
            i = i + 1;
        }
        r
    }

    /// Identifiers of the calculations, in store order.
    pub fn ids_of_calcs(&self) -> (r: Vec<String>)
        ensures
            ids_view(r@) == calc_ids(self@.calcs),
    {
        let mut r: Vec<String> = Vec::new();
        let mut i: usize = 0;
        while i < self.cnodes.len()
            invariant
                i <= self@.calcs.len(),
                r@.len() == i,
                forall|j: int| 0 <= j < i ==> (#[trigger] r@[j])@ == self@.calcs[j].id,
            decreases self@.calcs.len() - i,
        {
            r.push(copy_text(&self.cnodes[i].id));
            i = i + 1;
        }
        assert(ids_view(r@) =~= calc_ids(self@.calcs));
        r
    }

    /// Identifiers of the data instances, in store order.
    pub fn ids_of_datas(&self) -> (r: Vec<String>)
        ensures
            ids_view(r@) == data_ids(self@.datas),
    {
        let mut r: Vec<String> = Vec::new();
        let mut i: usize = 0;
        while i < self.dnodes.len()
            invariant
                i <= self@.datas.len(),
                r@.len() == i,
                forall|j: int| 0 <= j < i ==> (#[trigger] r@[j])@ == self@.datas[j].id,
            decreases self@.datas.len() - i,
        {
            r.push(copy_text(&self.dnodes[i].id));
            i = i + 1;
        }
        assert(ids_view(r@) =~= data_ids(self@.datas));
        r
    }

    /// The last data instance with identity `ident`.
    pub fn lookup_data(&self, ident: &NodeIdentifier) -> (r: Option<String>)
        ensures
            match r {
                Some(v) => lookup_data_ident(self@, ident@, self@.datas.len() as int) == Some(v@),
                None => lookup_data_ident(self@, ident@, self@.datas.len() as int) is None,
            },
    {
        let mut r: Option<String> = None;
        let mut i: usize = 0;
        while i < self.dnodes.len()
            invariant
                i <= self@.datas.len(),
                match r {
                    Some(v) => lookup_data_ident(self@, ident@, i as int) == Some(v@),
                    None => lookup_data_ident(self@, ident@, i as int) is None,
                },
            decreases self@.datas.len() - i,
        {
            let di = self.data_identity(&self.dnodes[i]);
            if ident_eq(&di, ident) {
                r = Some(copy_text(&self.dnodes[i].id));
            }
            i = i + 1;
        }
        r
    }

    /// The renames of the data pass of this store against `global`.
    pub fn data_rename_map(&self, global: &Database) -> (r: Vec<(String, String)>)
        ensures
            pairs_view(r@) == data_renames(self@, global@, self@.datas.len() as int),
    {
        let mut r: Vec<(String, String)> = Vec::new();
        let mut i: usize = 0;
        while i < self.dnodes.len()
            invariant
                i <= self@.datas.len(),
                pairs_view(r@) == data_renames(self@, global@, i as int),
            decreases self@.datas.len() - i,
        {
            let d = &self.dnodes[i];
            if self.producer_of(&d.id).is_some() {
                let ident = self.data_identity(d);
                match global.lookup_data(&ident) {
                    Some(g) => {
                        if g != d.id {
                            let ghost before = pairs_view(r@);
                            r.push((copy_text(&d.id), g));
                            assert(pairs_view(r@) =~= before.push((d@.id, r@.last().1@)));
                        }
                    },
                    None => {},
                }
            }
            i = i + 1;
        }
        r
    }

    /// The renames of the calculation pass of this store against `global`.
    pub fn calc_rename_map(&self, global: &Database) -> (r: Vec<(String, String)>)
        ensures
            pairs_view(r@) == calc_renames(self@, global@, self@.calcs.len() as int),
    {
        let mut r: Vec<(String, String)> = Vec::new();
        let mut i: usize = 0;
        while i < self.cnodes.len()
            invariant
                i <= self@.calcs.len(),
                pairs_view(r@) == calc_renames(self@, global@, i as int),
            decreases self@.calcs.len() - i,
        {
            let c = &self.cnodes[i];
            if c.incoming.len() > 0 {
                let ident = calc_identity(c);
                match global.lookup_calc(&ident) {
                    Some(g) => {
                        if g != c.id {
                            let ghost before = pairs_view(r@);
                            r.push((copy_text(&c.id), g));
                            assert(pairs_view(r@) =~= before.push((c@.id, r@.last().1@)));
                        }
                    },
                    None => {},
                }
            }
            i = i + 1;
        }
        r
    }

    /// Renames identifiers everywhere: the instances themselves and every
    /// input and output reference.
    pub fn apply_renames(&mut self, rename_map: &Vec<(String, String)>)
        ensures
            final(self)@ == apply_spec(old(self)@, pairs_view(rename_map@)),
    {
        let ghost m = pairs_view(rename_map@);
        let ghost before = self@;
        let mut cnodes: Vec<CNode> = Vec::new();
        let mut i: usize = 0;
        while i < self.cnodes.len()
            invariant
                before == self@,
                m == pairs_view(rename_map@),
                i <= before.calcs.len(),
                cnodes@.len() == i,
                forall|j: int| 0 <= j < i ==> (#[trigger] cnodes@[j])@ == renamed_calc(m, before.calcs[j]),
            decreases before.calcs.len() - i,
        {
            let c = &self.cnodes[i];
            cnodes.push(CNode {
                id: lookup_rename(rename_map, &c.id),
                template: copy_text(&c.template),
                incoming: rename_all(rename_map, &c.incoming),
                outcoming: rename_all(rename_map, &c.outcoming),
                extra: crate::model::copy_extras(&c.extra),
            });
            i = i + 1;
        }
        let mut dnodes: Vec<DNode> = Vec::new();
        let mut j: usize = 0;
        while j < self.dnodes.len()
            invariant
                before == self@,
                m == pairs_view(rename_map@),
                j <= before.datas.len(),
                dnodes@.len() == j,
                forall|k: int| 0 <= k < j ==> (#[trigger] dnodes@[k])@ == (DataView {
                    id: rename_id(m, before.datas[k].id),
                    template: before.datas[k].template,
                }),
            decreases before.datas.len() - j,
        {
            let d = &self.dnodes[j];
            dnodes.push(DNode { id: lookup_rename(rename_map, &d.id), template: copy_text(&d.template) });
            j = j + 1;
        }
        self.cnodes = cnodes;
        self.dnodes = dnodes;
        assert(self@.calcs =~= apply_spec(before, m).calcs);
        assert(self@.datas =~= apply_spec(before, m).datas);
    }
}

proof fn lemma_adopt_calcs(existing: Seq<CalcView>, extra: Seq<CalcView>)
    ensures
        unique(calc_ids(existing)) ==> unique(calc_ids(adopt_calcs(existing, extra))),
        adopt_calcs(existing, extra).len() >= existing.len(),
        forall|i: int| 0 <= i < existing.len() ==> #[trigger] adopt_calcs(existing, extra)[i] == existing[i],
        forall|i: int|
            existing.len() <= i < adopt_calcs(existing, extra).len() ==> extra.contains(
                #[trigger] adopt_calcs(existing, extra)[i],
            ),
        forall|x: Seq<char>|
            #[trigger] calc_ids(adopt_calcs(existing, extra)).contains(x) <==> calc_ids(existing).contains(x)
                || calc_ids(extra).contains(x),
    decreases extra.len(),
{
    if extra.len() > 0 {
        let r = adopt_calcs(existing, extra.drop_last());
        lemma_adopt_calcs(existing, extra.drop_last());
        let e = extra.last();
        assert(calc_ids(r.push(e)) =~= calc_ids(r).push(e.id));
        assert(calc_ids(extra) =~= calc_ids(extra.drop_last()).push(e.id));
        assert forall|x: Seq<char>| calc_ids(extra.drop_last()).contains(x) implies calc_ids(extra).contains(x) by {
            let i = choose|i: int| 0 <= i < calc_ids(extra.drop_last()).len() && calc_ids(extra.drop_last())[i] == x;
            assert(calc_ids(extra)[i] == x);
        }
        assert(calc_ids(extra)[extra.len() - 1] == e.id);
        assert forall|i: int|
            existing.len() <= i < adopt_calcs(existing, extra).len() implies extra.contains(
                #[trigger] adopt_calcs(existing, extra)[i],
            ) by {
            if i < r.len() {
                assert(extra.drop_last().contains(r[i]));
                let j = choose|j: int| 0 <= j < extra.drop_last().len() && extra.drop_last()[j] == r[i];
                assert(extra[j] == r[i]);
            } else {
                assert(extra[extra.len() - 1] == e);
            }
        }
        if !calc_ids(r).contains(e.id) {
            assert forall|x: Seq<char>| calc_ids(r.push(e)).contains(x) implies calc_ids(r).contains(x) || x == e.id by {
                let i = choose|i: int| 0 <= i < calc_ids(r.push(e)).len() && calc_ids(r.push(e))[i] == x;
                if i < r.len() {
                    assert(calc_ids(r)[i] == x);
                }
            }
            assert forall|x: Seq<char>| calc_ids(r).contains(x) implies calc_ids(r.push(e)).contains(x) by {
                let i = choose|i: int| 0 <= i < calc_ids(r).len() && calc_ids(r)[i] == x;
                assert(calc_ids(r.push(e))[i] == x);
            }
            assert(calc_ids(r.push(e))[r.len() as int] == e.id);
        }
        assert forall|x: Seq<char>| calc_ids(extra).contains(x) implies calc_ids(extra.drop_last()).contains(x) || x == e.id by {
            let i = choose|i: int| 0 <= i < calc_ids(extra).len() && calc_ids(extra)[i] == x;
            if i < extra.len() - 1 {
                assert(calc_ids(extra.drop_last())[i] == x);
            }
        }
        assert forall|x: Seq<char>|
            #[trigger] calc_ids(adopt_calcs(existing, extra)).contains(x) <==> calc_ids(existing).contains(x)
                || calc_ids(extra).contains(x) by {
            assert(calc_ids(r).contains(x) <==> calc_ids(existing).contains(x) || calc_ids(extra.drop_last()).contains(x));
        }
    }
}

proof fn lemma_adopt_datas(existing: Seq<DataView>, extra: Seq<DataView>)
    ensures
        unique(data_ids(existing)) ==> unique(data_ids(adopt_datas(existing, extra))),
        adopt_datas(existing, extra).len() >= existing.len(),
        forall|i: int| 0 <= i < existing.len() ==> #[trigger] adopt_datas(existing, extra)[i] == existing[i],
        forall|x: Seq<char>|
            #[trigger] data_ids(adopt_datas(existing, extra)).contains(x) <==> data_ids(existing).contains(x)
                || data_ids(extra).contains(x),
    decreases extra.len(),
{
    if extra.len() > 0 {
        let r = adopt_datas(existing, extra.drop_last());
        lemma_adopt_datas(existing, extra.drop_last());
        let e = extra.last();
        assert(data_ids(r.push(e)) =~= data_ids(r).push(e.id));
        assert(data_ids(extra) =~= data_ids(extra.drop_last()).push(e.id));
        assert forall|x: Seq<char>| data_ids(extra.drop_last()).contains(x) implies data_ids(extra).contains(x) by {
            let i = choose|i: int| 0 <= i < data_ids(extra.drop_last()).len() && data_ids(extra.drop_last())[i] == x;
            assert(data_ids(extra)[i] == x);
        }
        assert(data_ids(extra)[extra.len() - 1] == e.id);
        if !data_ids(r).contains(e.id) {
            assert forall|x: Seq<char>| data_ids(r.push(e)).contains(x) implies data_ids(r).contains(x) || x == e.id by {
                let i = choose|i: int| 0 <= i < data_ids(r.push(e)).len() && data_ids(r.push(e))[i] == x;
                if i < r.len() {
                    assert(data_ids(r)[i] == x);
                }
            }
            assert forall|x: Seq<char>| data_ids(r).contains(x) implies data_ids(r.push(e)).contains(x) by {
                let i = choose|i: int| 0 <= i < data_ids(r).len() && data_ids(r)[i] == x;
                assert(data_ids(r.push(e))[i] == x);
            }
            assert(data_ids(r.push(e))[r.len() as int] == e.id);
        }
        assert forall|x: Seq<char>| data_ids(extra).contains(x) implies data_ids(extra.drop_last()).contains(x) || x == e.id by {
            let i = choose|i: int| 0 <= i < data_ids(extra).len() && data_ids(extra)[i] == x;
            if i < extra.len() - 1 {
                assert(data_ids(extra.drop_last())[i] == x);
            }
        }
        assert forall|x: Seq<char>|
            #[trigger] data_ids(adopt_datas(existing, extra)).contains(x) <==> data_ids(existing).contains(x)
                || data_ids(extra).contains(x) by {
            assert(data_ids(r).contains(x) <==> data_ids(existing).contains(x) || data_ids(extra.drop_last()).contains(x));
        }
    }
}

proof fn lemma_adopt_ids(existing: Seq<Seq<char>>, extra: Seq<Seq<char>>)
    ensures
        unique(existing) ==> unique(adopt_ids(existing, extra)),
    decreases extra.len(),
{
    if extra.len() > 0 {
        lemma_adopt_ids(existing, extra.drop_last());
    }
}

/// Renaming keeps every reference pointing at a data instance.
proof fn lemma_apply_refs(db: DatabaseView, m: Seq<(Seq<char>, Seq<char>)>)
    requires
        db.refs_closed(),
    ensures
        apply_spec(db, m).refs_closed(),
{
    let a = apply_spec(db, m);
    assert forall|k: int, x: Seq<char>|
        #![trigger a.calcs[k].incoming.contains(x)]
        #![trigger a.calcs[k].outcoming.contains(x)]
        0 <= k < a.calcs.len() && (a.calcs[k].incoming.contains(x) || a.calcs[k].outcoming.contains(x))
            implies data_ids(a.datas).contains(x) by {
        let c = db.calcs[k];
        assert(a.calcs[k] == renamed_calc(m, c));
        let y = if a.calcs[k].incoming.contains(x) {
            let t = choose|t: int| 0 <= t < a.calcs[k].incoming.len() && a.calcs[k].incoming[t] == x;
            assert(c.incoming.contains(c.incoming[t]));
            c.incoming[t]
        } else {
            let t = choose|t: int| 0 <= t < a.calcs[k].outcoming.len() && a.calcs[k].outcoming[t] == x;
            assert(c.outcoming.contains(c.outcoming[t]));
            c.outcoming[t]
        };
        assert(x == rename_id(m, y));
        assert(data_ids(db.datas).contains(y));
        let j = choose|j: int| 0 <= j < data_ids(db.datas).len() && data_ids(db.datas)[j] == y;
        assert(data_ids(a.datas)[j] == x);
    }
}

/// No calculation of one store shares an identifier with a data instance of
/// the other.
pub open spec fn kinds_apart(a: DatabaseView, b: DatabaseView) -> bool {
    disjoint(calc_ids(a.calcs), data_ids(b.datas)) && disjoint(calc_ids(b.calcs), data_ids(a.datas))
}

proof fn lemma_rename_cases(m: Seq<(Seq<char>, Seq<char>)>, x: Seq<char>)
    ensures
        rename_id(m, x) == x || exists|i: int| 0 <= i < m.len() && (#[trigger] m[i]).0 == x && m[i].1 == rename_id(m, x),
    decreases m.len(),
{
    if m.len() > 0 {
        if m[0].0 != x {
            lemma_rename_cases(m.drop_first(), x);
            if rename_id(m, x) != x {
                let i = choose|i: int| 0 <= i < m.drop_first().len() && (#[trigger] m.drop_first()[i]).0 == x && m.drop_first()[i].1 == rename_id(m.drop_first(), x);
                assert(m[i + 1] == m.drop_first()[i]);
            }
        } else {
            assert(m[0].0 == x);
        }
    }
}

proof fn lemma_lookup_data_in(db: DatabaseView, ident: Identity, n: int)
    requires
        n <= db.datas.len(),
    ensures
        lookup_data_ident(db, ident, n) is Some ==> data_ids(db.datas).contains(lookup_data_ident(db, ident, n)->Some_0),
    decreases n,
{
    if n > 0 {
        lemma_lookup_data_in(db, ident, n - 1);
        assert(data_ids(db.datas)[n - 1] == db.datas[n - 1].id);
    }
}

proof fn lemma_lookup_calc_in(db: DatabaseView, ident: Identity, n: int)
    requires
        n <= db.calcs.len(),
    ensures
        lookup_calc_ident(db, ident, n) is Some ==> calc_ids(db.calcs).contains(lookup_calc_ident(db, ident, n)->Some_0),
    decreases n,
{
    if n > 0 {
        lemma_lookup_calc_in(db, ident, n - 1);
        assert(calc_ids(db.calcs)[n - 1] == db.calcs[n - 1].id);
    }
}

/// Each rename of the data pass renames a produced incoming data instance to
/// a global data instance.
proof fn lemma_data_renames_shape(inc: DatabaseView, glob: DatabaseView, n: int)
    requires
        0 <= n <= inc.datas.len(),
    ensures
        forall|i: int|
            0 <= i < data_renames(inc, glob, n).len() ==> producer(inc.calcs, (#[trigger] data_renames(inc, glob, n)[i]).0) >= 0
                && data_ids(inc.datas).contains(data_renames(inc, glob, n)[i].0) && data_ids(glob.datas).contains(
                data_renames(inc, glob, n)[i].1,
            ),
    decreases n,
{
    if n > 0 {
        lemma_data_renames_shape(inc, glob, n - 1);
        let d = inc.datas[n - 1];
        lemma_lookup_data_in(glob, data_ident(inc, d), glob.datas.len() as int);
        assert(data_ids(inc.datas)[n - 1] == d.id);
        let r = data_renames(inc, glob, n - 1);
        let rn = data_renames(inc, glob, n);
        assert forall|i: int| 0 <= i < rn.len() implies producer(inc.calcs, (#[trigger] rn[i]).0) >= 0
            && data_ids(inc.datas).contains(rn[i].0) && data_ids(glob.datas).contains(rn[i].1) by {
            if i < r.len() {
                assert(rn[i] == r[i]);
            }
        }
    }
}

/// Each rename of the calculation pass renames a calculation of the store
/// to a global calculation.
proof fn lemma_calc_renames_shape(a: DatabaseView, glob: DatabaseView, n: int)
    requires
        0 <= n <= a.calcs.len(),
    ensures
        forall|i: int|
            0 <= i < calc_renames(a, glob, n).len() ==> calc_ids(a.calcs).contains((#[trigger] calc_renames(a, glob, n)[i]).0)
                && calc_ids(glob.calcs).contains(calc_renames(a, glob, n)[i].1),
    decreases n,
{
    if n > 0 {
        lemma_calc_renames_shape(a, glob, n - 1);
        let c = a.calcs[n - 1];
        lemma_lookup_calc_in(glob, calc_ident(c), glob.calcs.len() as int);
        assert(calc_ids(a.calcs)[n - 1] == c.id);
        let r = calc_renames(a, glob, n - 1);
        let rn = calc_renames(a, glob, n);
        assert forall|i: int| 0 <= i < rn.len() implies calc_ids(a.calcs).contains((#[trigger] rn[i]).0)
            && calc_ids(glob.calcs).contains(rn[i].1) by {
            if i < r.len() {
                assert(rn[i] == r[i]);
            }
        }
    }
}

/// Where the identifiers of the canonical store come from: calculations keep
/// their identifier or take a global calculation's, data instances keep
/// theirs or take a global data instance's, and data instances that no
/// calculation produces, and every reference to them, are left alone.
pub proof fn lemma_canonical_ids(inc: DatabaseView, glob: DatabaseView)
    requires
        inc.wf(),
        glob.wf(),
        kinds_apart(inc, glob),
    ensures
        canonical(inc, glob).calcs.len() == inc.calcs.len(),
        canonical(inc, glob).datas.len() == inc.datas.len(),
        forall|k: int|
            0 <= k < inc.calcs.len() ==> (#[trigger] canonical(inc, glob).calcs[k]).id == inc.calcs[k].id || calc_ids(
                glob.calcs,
            ).contains(canonical(inc, glob).calcs[k].id),
        forall|j: int|
            0 <= j < inc.datas.len() ==> (#[trigger] canonical(inc, glob).datas[j]).id == inc.datas[j].id || data_ids(
                glob.datas,
            ).contains(canonical(inc, glob).datas[j].id),
        forall|j: int|
            0 <= j < inc.datas.len() && producer(inc.calcs, inc.datas[j].id) == -1 ==> #[trigger] canonical(
                inc,
                glob,
            ).datas[j] == inc.datas[j],
        forall|k: int, m: int|
            0 <= k < inc.calcs.len() && 0 <= m < inc.calcs[k].incoming.len() && producer(
                inc.calcs,
                inc.calcs[k].incoming[m],
            ) == -1 ==> #[trigger] canonical(inc, glob).calcs[k].incoming[m] == inc.calcs[k].incoming[m],
{
    let ma = data_renames(inc, glob, inc.datas.len() as int);
    let a = after_data_pass(inc, glob);
    let mb = calc_renames(a, glob, a.calcs.len() as int);
    let c = canonical(inc, glob);
    lemma_data_renames_shape(inc, glob, inc.datas.len() as int);
    // The data pass leaves calculation identifiers alone.
    assert forall|k: int| 0 <= k < inc.calcs.len() implies #[trigger] a.calcs[k].id == inc.calcs[k].id by {
        let x = inc.calcs[k].id;
        lemma_rename_cases(ma, x);
        if rename_id(ma, x) != x {
            let i = choose|i: int| 0 <= i < ma.len() && (#[trigger] ma[i]).0 == x && ma[i].1 == rename_id(ma, x);
            assert(data_ids(inc.datas).contains(ma[i].0));
            let j = choose|j: int| 0 <= j < data_ids(inc.datas).len() && data_ids(inc.datas)[j] == x;
            assert(calc_ids(inc.calcs)[k] != data_ids(inc.datas)[j]);
        }
    }
    assert(calc_ids(a.calcs) =~= calc_ids(inc.calcs));
    lemma_calc_renames_shape(a, glob, a.calcs.len() as int);
    // A name that is no calculation of the store is left alone by the calculation pass.
    assert forall|y: Seq<char>| !calc_ids(inc.calcs).contains(y) implies #[trigger] rename_id(mb, y) == y by {
        lemma_rename_cases(mb, y);
        if rename_id(mb, y) != y {
            let i = choose|i: int| 0 <= i < mb.len() && (#[trigger] mb[i]).0 == y && mb[i].1 == rename_id(mb, y);
            assert(calc_ids(a.calcs).contains(mb[i].0));
        }
    }
    // A data instance that no calculation produces is left alone by the data pass.
    assert forall|y: Seq<char>| producer(inc.calcs, y) == -1 implies #[trigger] rename_id(ma, y) == y by {
        lemma_rename_cases(ma, y);
        if rename_id(ma, y) != y {
            let i = choose|i: int| 0 <= i < ma.len() && (#[trigger] ma[i]).0 == y && ma[i].1 == rename_id(ma, y);
        }
    }
    assert forall|k: int| 0 <= k < inc.calcs.len() implies (#[trigger] c.calcs[k]).id == inc.calcs[k].id || calc_ids(
        glob.calcs,
    ).contains(c.calcs[k].id) by {
        let x = a.calcs[k].id;
        lemma_rename_cases(mb, x);
        if rename_id(mb, x) != x {
            let i = choose|i: int| 0 <= i < mb.len() && (#[trigger] mb[i]).0 == x && mb[i].1 == rename_id(mb, x);
        }
    }
    assert forall|j: int| 0 <= j < inc.datas.len() implies (#[trigger] c.datas[j]).id == inc.datas[j].id || data_ids(
        glob.datas,
    ).contains(c.datas[j].id) by {
        let x = inc.datas[j].id;
        lemma_rename_cases(ma, x);
        let y = a.datas[j].id;
        assert(y == rename_id(ma, x));
        if y != x {
            let i = choose|i: int| 0 <= i < ma.len() && (#[trigger] ma[i]).0 == x && ma[i].1 == y;
            assert(data_ids(glob.datas).contains(y));
            let q = choose|q: int| 0 <= q < data_ids(glob.datas).len() && data_ids(glob.datas)[q] == y;
            assert forall|p: int| 0 <= p < calc_ids(inc.calcs).len() implies calc_ids(inc.calcs)[p] != y by {
                assert(calc_ids(inc.calcs)[p] != data_ids(glob.datas)[q]);
            }
        } else {
            assert(data_ids(inc.datas)[j] == x);
            assert forall|p: int| 0 <= p < calc_ids(inc.calcs).len() implies calc_ids(inc.calcs)[p] != y by {
                assert(calc_ids(inc.calcs)[p] != data_ids(inc.datas)[j]);
            }
        }
        assert(rename_id(mb, y) == y);
    }
    assert forall|j: int| 0 <= j < inc.datas.len() && producer(inc.calcs, inc.datas[j].id) == -1 implies #[trigger] c.datas[j]
        == inc.datas[j] by {
        let x = inc.datas[j].id;
        assert(rename_id(ma, x) == x);
        assert(data_ids(inc.datas)[j] == x);
        assert forall|p: int| 0 <= p < calc_ids(inc.calcs).len() implies calc_ids(inc.calcs)[p] != x by {
            assert(calc_ids(inc.calcs)[p] != data_ids(inc.datas)[j]);
        }
        assert(rename_id(mb, x) == x);
    }
    assert forall|k: int, m: int|
        0 <= k < inc.calcs.len() && 0 <= m < inc.calcs[k].incoming.len() && producer(inc.calcs, inc.calcs[k].incoming[m]) == -1
            implies #[trigger] c.calcs[k].incoming[m] == inc.calcs[k].incoming[m] by {
        let x = inc.calcs[k].incoming[m];
        assert(inc.calcs[k].incoming.contains(x));
        assert(data_ids(inc.datas).contains(x));
        let j = choose|j: int| 0 <= j < data_ids(inc.datas).len() && data_ids(inc.datas)[j] == x;
        assert forall|p: int| 0 <= p < calc_ids(inc.calcs).len() implies calc_ids(inc.calcs)[p] != x by {
            assert(calc_ids(inc.calcs)[p] != data_ids(inc.datas)[j]);
        }
        assert(rename_id(ma, x) == x);
        assert(a.calcs[k].incoming[m] == x);
        assert(rename_id(mb, x) == x);
    }
}

/// A merge leaves the global store well formed.
proof fn lemma_merged_wf(glob: DatabaseView, inc: DatabaseView)
    requires
        glob.wf(),
        inc.wf(),
        kinds_apart(inc, glob),
    ensures
        merged(glob, inc).wf(),
{
    let a = after_data_pass(inc, glob);
    let c = canonical(inc, glob);
    lemma_apply_refs(inc, data_renames(inc, glob, inc.datas.len() as int));
    lemma_apply_refs(a, calc_renames(a, glob, a.calcs.len() as int));
    let r = merged(glob, inc);
    lemma_adopt_calcs(glob.template.calcs, inc.template.calcs);
    lemma_adopt_ids(glob.template.datas, inc.template.datas);
    lemma_adopt_calcs(glob.calcs, c.calcs);
    lemma_adopt_datas(glob.datas, c.datas);
    lemma_canonical_ids(inc, glob);
    assert forall|a: int, b: int|
        0 <= a < calc_ids(r.calcs).len() && 0 <= b < data_ids(r.datas).len() implies #[trigger] calc_ids(r.calcs)[a]
            != #[trigger] data_ids(r.datas)[b] by {
        let x = r.calcs[a].id;
        let y = r.datas[b].id;
        assert(data_ids(r.datas)[b] == y);
        assert(data_ids(r.datas).contains(y));
        let from_glob_calc = a < glob.calcs.len();
        if !from_glob_calc {
            assert(c.calcs.contains(r.calcs[a]));
        }
        if x == y {
            let x_glob = if from_glob_calc {
                assert(calc_ids(glob.calcs)[a] == x);
                true
            } else {
                let k = choose|k: int| 0 <= k < c.calcs.len() && c.calcs[k] == r.calcs[a];
                if c.calcs[k].id == inc.calcs[k].id {
                    assert(calc_ids(inc.calcs)[k] == x);
                    false
                } else {
                    true
                }
            };
            let y_glob = if data_ids(glob.datas).contains(y) {
                true
            } else {
                assert(data_ids(c.datas).contains(y));
                let j = choose|j: int| 0 <= j < data_ids(c.datas).len() && data_ids(c.datas)[j] == y;
                assert(c.datas[j].id == y);
                if c.datas[j].id == inc.datas[j].id {
                    assert(data_ids(inc.datas)[j] == y);
                    false
                } else {
                    true
                }
            };
            let cg = calc_ids(glob.calcs);
            let ci = calc_ids(inc.calcs);
            let dg = data_ids(glob.datas);
            let di = data_ids(inc.datas);
            if x_glob {
                assert(cg.contains(x));
                let p = choose|p: int| 0 <= p < cg.len() && cg[p] == x;
                if y_glob {
                    let q = choose|q: int| 0 <= q < dg.len() && dg[q] == y;
                    assert(cg[p] != dg[q]);
                } else {
                    let q = choose|q: int| 0 <= q < di.len() && di[q] == y;
                    assert(cg[p] != di[q]);
                }
            } else {
                assert(ci.contains(x));
                let p = choose|p: int| 0 <= p < ci.len() && ci[p] == x;
                if y_glob {
                    let q = choose|q: int| 0 <= q < dg.len() && dg[q] == y;
                    assert(ci[p] != dg[q]);
                } else {
                    let q = choose|q: int| 0 <= q < di.len() && di[q] == y;
                    assert(ci[p] != di[q]);
                }
            }
        }
    }
    assert forall|k: int, x: Seq<char>|
        #![trigger r.calcs[k].incoming.contains(x)]
        #![trigger r.calcs[k].outcoming.contains(x)]
        0 <= k < r.calcs.len() && (r.calcs[k].incoming.contains(x) || r.calcs[k].outcoming.contains(x))
            implies data_ids(r.datas).contains(x) by {
        if k < glob.calcs.len() {
            assert(r.calcs[k] == glob.calcs[k]);
            assert(data_ids(glob.datas).contains(x));
        } else {
            assert(c.calcs.contains(r.calcs[k]));
            let j = choose|j: int| 0 <= j < c.calcs.len() && c.calcs[j] == r.calcs[k];
            if r.calcs[k].incoming.contains(x) {
                assert(c.calcs[j].incoming.contains(x));
            } else {
                assert(c.calcs[j].outcoming.contains(x));
            }
            assert(data_ids(c.datas).contains(x));
        }
    }
}

impl DatabaseTemplate {
    /// The first calculation template of this blueprint that `other` holds
    /// with a different definition.
    pub fn first_mismatch(&self, other: &DatabaseTemplate) -> (r: Option<String>)
        requires
            other@.wf(),
        ensures
            match r {
                Some(k) => first_mismatch_is(self@, other@, k@),
                None => compatible(self@, other@),
            },
    {
        let mut i: usize = 0;
        while i < self.cnodes.len()
            invariant
                other@.wf(),
                i <= self@.calcs.len(),
                forall|j: int|
                    0 <= j < i && has_calc(other@.calcs, #[trigger] self@.calcs[j].id) ==> same_calc(
                        self@.calcs[j],
                        calc_with(other@.calcs, self@.calcs[j].id),
                    ),
            decreases self@.calcs.len() - i,
        {
            let c = &self.cnodes[i];
            match other.find_calc(&c.id) {
                Some(j) => {
                    proof {
                        let q = choose|q: int| 0 <= q < other@.calcs.len() && (#[trigger] other@.calcs[q]).id == c@.id;
                        assert(calc_ids(other@.calcs)[q] == calc_ids(other@.calcs)[j as int]);
                    }
                    if !calc_template_equal(c, &other.cnodes[j]) {
                        proof {
                            assert(self@.calcs[i as int].id == c@.id);
                            assert(mismatch_at(self@, other@, i as int));
                            assert forall|j: int| 0 <= j < i implies !mismatch_at(self@, other@, j) by {
                                if has_calc(other@.calcs, self@.calcs[j].id) {
                                    assert(same_calc(self@.calcs[j], calc_with(other@.calcs, self@.calcs[j].id)));
                                }
                            }
                        }
                        return Some(copy_text(&c.id));
                    }
                },
                None => {},
            }
            i = i + 1;
        }
        None
    }

    /// Adds the templates of `other` that this blueprint lacks.
    pub fn adopt(&mut self, other: &DatabaseTemplate)
        requires
            old(self)@.wf(),
        ensures
            final(self)@ == (TemplateView {
                calcs: adopt_calcs(old(self)@.calcs, other@.calcs),
                datas: adopt_ids(old(self)@.datas, other@.datas),
            }),
            final(self)@.wf(),
    {
        let ghost start = self@;
        let mut i: usize = 0;
        while i < other.cnodes.len()
            invariant
                i <= other@.calcs.len(),
                self@.calcs == adopt_calcs(start.calcs, other@.calcs.subrange(0, i as int)),
                self@.datas == start.datas,
            decreases other@.calcs.len() - i,
        {
            let ghost before = self@;
            assert(other@.calcs.subrange(0, i + 1).drop_last() =~= other@.calcs.subrange(0, i as int));
            match self.find_calc(&other.cnodes[i].id) {
                Some(k) => {
                    assert(calc_ids(before.calcs)[k as int] == other@.calcs[i as int].id);
                },
                None => {
                    self.cnodes.push(other.cnodes[i].copy());
                    assert(self@.calcs =~= before.calcs.push(other@.calcs[i as int]));
                    assert(!calc_ids(before.calcs).contains(other@.calcs[i as int].id)) by {
                        if calc_ids(before.calcs).contains(other@.calcs[i as int].id) {
                            let q = choose|q: int| 0 <= q < calc_ids(before.calcs).len() && calc_ids(before.calcs)[q] == other@.calcs[i as int].id;
                            assert(before.calcs[q].id == other@.calcs[i as int].id);
                        }
                    }
                    assert(self@.datas =~= before.datas);
                },
            }
            i = i + 1;
        }
        assert(other@.calcs.subrange(0, other@.calcs.len() as int) =~= other@.calcs);
        let mut j: usize = 0;
        while j < other.dnodes.len()
            invariant
                j <= other@.datas.len(),
                self@.calcs == adopt_calcs(start.calcs, other@.calcs),
                self@.datas == adopt_ids(start.datas, other@.datas.subrange(0, j as int)),
            decreases other@.datas.len() - j,
        {
            let ghost before = self@;
            assert(other@.datas.subrange(0, j + 1).drop_last() =~= other@.datas.subrange(0, j as int));
            match self.find_data(&other.dnodes[j].id) {
                Some(k) => {},
                None => {
                    self.dnodes.push(other.dnodes[j].copy());
                    assert(self@.datas =~= before.datas.push(other@.datas[j as int]));
                    assert(self@.calcs =~= before.calcs);
                },
            }
            j = j + 1;
        }
        assert(other@.datas.subrange(0, other@.datas.len() as int) =~= other@.datas);
        proof {
            lemma_adopt_calcs(start.calcs, other@.calcs);
            lemma_adopt_ids(start.datas, other@.datas);
        }
    }
}

impl Database {
    fn register_new(&mut self, other: &Database)
        ensures
            final(self)@ == (DatabaseView {
                template: old(self)@.template,
                calcs: adopt_calcs(old(self)@.calcs, other@.calcs),
                datas: adopt_datas(old(self)@.datas, other@.datas),
            }),
    {
        let ghost start = self@;
        let mut i: usize = 0;
        while i < other.cnodes.len()
            invariant
                i <= other@.calcs.len(),
                self@.calcs == adopt_calcs(start.calcs, other@.calcs.subrange(0, i as int)),
                self@.datas == start.datas,
                self@.template == start.template,
            decreases other@.calcs.len() - i,
        {
            let ghost before = self@;
            assert(other@.calcs.subrange(0, i + 1).drop_last() =~= other@.calcs.subrange(0, i as int));
            match self.find_calc(&other.cnodes[i].id) {
                Some(k) => {
                    assert(calc_ids(before.calcs)[k as int] == other@.calcs[i as int].id);
                },
                None => {
                    self.cnodes.push(other.cnodes[i].copy());
                    assert(self@.calcs =~= before.calcs.push(other@.calcs[i as int]));
                    assert(!calc_ids(before.calcs).contains(other@.calcs[i as int].id)) by {
                        if calc_ids(before.calcs).contains(other@.calcs[i as int].id) {
                            let q = choose|q: int| 0 <= q < calc_ids(before.calcs).len() && calc_ids(before.calcs)[q] == other@.calcs[i as int].id;
                            assert(before.calcs[q].id == other@.calcs[i as int].id);
                        }
                    }
                    assert(self@.datas =~= before.datas);
                },
            }
            i = i + 1;
        }
        assert(other@.calcs.subrange(0, other@.calcs.len() as int) =~= other@.calcs);
        let mut j: usize = 0;
        while j < other.dnodes.len()
            invariant
                j <= other@.datas.len(),
                self@.calcs == adopt_calcs(start.calcs, other@.calcs),
                self@.datas == adopt_datas(start.datas, other@.datas.subrange(0, j as int)),
                self@.template == start.template,
            decreases other@.datas.len() - j,
        {
            let ghost before = self@;
            assert(other@.datas.subrange(0, j + 1).drop_last() =~= other@.datas.subrange(0, j as int));
            match self.find_data(&other.dnodes[j].id) {
                Some(k) => {
                    assert(data_ids(before.datas)[k as int] == other@.datas[j as int].id);
                },
                None => {
                    self.dnodes.push(other.dnodes[j].copy());
                    assert(self@.datas =~= before.datas.push(other@.datas[j as int]));
                    assert(!data_ids(before.datas).contains(other@.datas[j as int].id)) by {
                        if data_ids(before.datas).contains(other@.datas[j as int].id) {
                            let q = choose|q: int| 0 <= q < data_ids(before.datas).len() && data_ids(before.datas)[q] == other@.datas[j as int].id;
                            assert(before.datas[q].id == other@.datas[j as int].id);
                        }
                    }
                    assert(self@.calcs =~= before.calcs);
                },
            }
            j = j + 1;
        }
        assert(other@.datas.subrange(0, other@.datas.len() as int) =~= other@.datas);
    }

    /// Whether no calculation of either store shares an identifier with a
    /// data instance of the other.
    pub fn kinds_apart_from(&self, other: &Database) -> (r: bool)
        ensures
            r == kinds_apart(self@, other@),
    {
        let a = self.ids_of_calcs();
        let b = other.ids_of_datas();
        let c = other.ids_of_calcs();
        let d = self.ids_of_datas();
        let ab = find_shared(&a, &b);
        let cd = find_shared(&c, &d);
        proof {
            if let Some(i) = ab {
                let j = choose|j: int| 0 <= j < ids_view(b@).len() && ids_view(b@)[j] == a@[i as int]@;
                assert(ids_view(a@)[i as int] == ids_view(b@)[j]);
            }
            if let Some(i) = cd {
                let j = choose|j: int| 0 <= j < ids_view(d@).len() && ids_view(d@)[j] == c@[i as int]@;
                assert(ids_view(c@)[i as int] == ids_view(d@)[j]);
            }
        }
        ab.is_none() && cd.is_none()
    }

    /// Renames this store against `global`: produced data instances that
    /// match a global one by identity take its identifier, then
    /// calculations with inputs that match a global one by identity (over
    /// the renamed inputs) take its identifier. Fails, changing nothing,
    /// when a calculation template of both stores differs.
    pub fn check_against(&mut self, global_db: &Database) -> (r: Result<(), GraphError>)
        requires
            old(self)@.wf(),
            global_db@.wf(),
            kinds_apart(old(self)@, global_db@),
        ensures
            match r {
                Ok(()) => {
                    &&& compatible(old(self)@.template, global_db@.template)
                    &&& final(self)@ == canonical(old(self)@, global_db@)
                    &&& forall|j: int|
                        0 <= j < old(self)@.datas.len() && producer(old(self)@.calcs, old(self)@.datas[j].id) == -1
                            ==> #[trigger] final(self)@.datas[j] == old(self)@.datas[j]
                    &&& forall|k: int, m: int|
                        0 <= k < old(self)@.calcs.len() && 0 <= m < old(self)@.calcs[k].incoming.len() && producer(
                            old(self)@.calcs,
                            old(self)@.calcs[k].incoming[m],
                        ) == -1 ==> #[trigger] final(self)@.calcs[k].incoming[m] == old(self)@.calcs[k].incoming[m]
                },
                Err(e) => {
                    &&& !compatible(old(self)@.template, global_db@.template)
                    &&& final(self)@ == old(self)@
                    &&& e matches GraphError::TemplateMismatch(k) && first_mismatch_is(
                        old(self)@.template,
                        global_db@.template,
                        k@,
                    )
                },
            },
    {
        if let Some(k) = self.template.first_mismatch(&global_db.template) {
            proof {
                let t = self@.template;
                let i = choose|i: int| #[trigger] mismatch_at(t, global_db@.template, i) && t.calcs[i].id == k@ && forall|j: int| 0 <= j < i ==> !mismatch_at(t, global_db@.template, j);
                assert(has_calc(global_db@.template.calcs, t.calcs[i].id));
                assert(!compatible(t, global_db@.template));
            }
            return Err(GraphError::TemplateMismatch(k));
        }
        let data_map = self.data_rename_map(global_db);
        self.apply_renames(&data_map);
        let calc_map = self.calc_rename_map(global_db);
        self.apply_renames(&calc_map);
        proof {
            lemma_canonical_ids(old(self)@, global_db@);
        }
        Ok(())
    }

    /// Merges this store into `global_db`. Templates present on both sides
    /// must be identical (else nothing changes); templates only here are
    /// adopted. This store is renamed against the global one (see
    /// `check_against`) and its instances whose final identifier the global
    /// store lacks are added to it.
    pub fn check_against_and_register(&mut self, global_db: &mut Database) -> (r: Result<(), GraphError>)
        requires
            old(self)@.wf(),
            old(global_db)@.wf(),
            kinds_apart(old(self)@, old(global_db)@),
        ensures
            match r {
                Ok(()) => {
                    &&& compatible(old(self)@.template, old(global_db)@.template)
                    &&& final(self)@ == canonical(old(self)@, old(global_db)@)
                    &&& final(global_db)@ == merged(old(global_db)@, old(self)@)
                    &&& final(global_db)@.wf()
                },
                Err(e) => {
                    &&& !compatible(old(self)@.template, old(global_db)@.template)
                    &&& final(self)@ == old(self)@
                    &&& final(global_db)@ == old(global_db)@
                    &&& e matches GraphError::TemplateMismatch(k) && first_mismatch_is(
                        old(self)@.template,
                        old(global_db)@.template,
                        k@,
                    )
                },
            },
    {
        let ghost inc = self@;
        let ghost glob = global_db@;
        match self.check_against(global_db) {
            Ok(()) => {},
            Err(e) => {
                return Err(e);
            },
        }
        global_db.template.adopt(&self.template);
        global_db.register_new(self);
        proof {
            assert(self@.template == inc.template);
            lemma_merged_wf(glob, inc);
        }
        assert(global_db@ == merged(glob, inc));
        Ok(())
    }

    /// Merges this store into `global_db` (see `check_against_and_register`).
    pub fn merge_into(&mut self, global_db: &mut Database) -> (r: Result<(), GraphError>)
        requires
            old(self)@.wf(),
            old(global_db)@.wf(),
            kinds_apart(old(self)@, old(global_db)@),
        ensures
            match r {
                Ok(()) => {
                    &&& compatible(old(self)@.template, old(global_db)@.template)
                    &&& final(self)@ == canonical(old(self)@, old(global_db)@)
                    &&& final(global_db)@ == merged(old(global_db)@, old(self)@)
                    &&& final(global_db)@.wf()
                },
                Err(e) => {
                    &&& !compatible(old(self)@.template, old(global_db)@.template)
                    &&& final(self)@ == old(self)@
                    &&& final(global_db)@ == old(global_db)@
                    &&& e matches GraphError::TemplateMismatch(k) && first_mismatch_is(
                        old(self)@.template,
                        old(global_db)@.template,
                        k@,
                    )
                },
            },
    {
        self.check_against_and_register(global_db)
    }
}

/// No two calculations, and no two data instances, share an identity: the
/// store holds no duplicate computation.
pub open spec fn identities_distinct(db: DatabaseView) -> bool {
    &&& forall|i: int, j: int|
        0 <= i < db.calcs.len() && 0 <= j < db.calcs.len() && i != j ==> calc_ident(#[trigger] db.calcs[i])
            != calc_ident(#[trigger] db.calcs[j])
    &&& forall|i: int, j: int|
        0 <= i < db.datas.len() && 0 <= j < db.datas.len() && i != j ==> data_ident(db, #[trigger] db.datas[i])
            != data_ident(db, #[trigger] db.datas[j])
}

proof fn lemma_lookup_data_self(db: DatabaseView, i: int, n: int)
    requires
        identities_distinct(db),
        0 <= i < n <= db.datas.len(),
    ensures
        lookup_data_ident(db, data_ident(db, db.datas[i]), n) == Some(db.datas[i].id),
    decreases n,
{
    if n - 1 != i {
        assert(data_ident(db, db.datas[n - 1]) != data_ident(db, db.datas[i]));
        lemma_lookup_data_self(db, i, n - 1);
    }
}

proof fn lemma_lookup_calc_self(db: DatabaseView, i: int, n: int)
    requires
        identities_distinct(db),
        0 <= i < n <= db.calcs.len(),
    ensures
        lookup_calc_ident(db, calc_ident(db.calcs[i]), n) == Some(db.calcs[i].id),
    decreases n,
{
    if n - 1 != i {
        assert(calc_ident(db.calcs[n - 1]) != calc_ident(db.calcs[i]));
        lemma_lookup_calc_self(db, i, n - 1);
    }
}

proof fn lemma_no_data_renames(db: DatabaseView, n: int)
    requires
        identities_distinct(db),
        0 <= n <= db.datas.len(),
    ensures
        data_renames(db, db, n).len() == 0,
    decreases n,
{
    if n > 0 {
        lemma_no_data_renames(db, n - 1);
        lemma_lookup_data_self(db, n - 1, db.datas.len() as int);
    }
}

proof fn lemma_no_calc_renames(db: DatabaseView, n: int)
    requires
        identities_distinct(db),
        0 <= n <= db.calcs.len(),
    ensures
        calc_renames(db, db, n).len() == 0,
    decreases n,
{
    if n > 0 {
        lemma_no_calc_renames(db, n - 1);
        lemma_lookup_calc_self(db, n - 1, db.calcs.len() as int);
    }
}

proof fn lemma_apply_nothing(db: DatabaseView, m: Seq<(Seq<char>, Seq<char>)>)
    requires
        m.len() == 0,
    ensures
        apply_spec(db, m) == db,
{
    assert forall|i: int| 0 <= i < db.calcs.len() implies #[trigger] renamed_calc(m, db.calcs[i]) == db.calcs[i] by {
        let c = db.calcs[i];
        assert(c.incoming.map_values(|x: Seq<char>| rename_id(m, x)) =~= c.incoming);
        assert(c.outcoming.map_values(|x: Seq<char>| rename_id(m, x)) =~= c.outcoming);
    }
    assert(apply_spec(db, m).calcs =~= db.calcs);
    assert(apply_spec(db, m).datas =~= db.datas);
}

proof fn lemma_adopt_calcs_present(existing: Seq<CalcView>, extra: Seq<CalcView>)
    requires
        forall|i: int| 0 <= i < extra.len() ==> calc_ids(existing).contains(#[trigger] extra[i].id),
    ensures
        adopt_calcs(existing, extra) == existing,
    decreases extra.len(),
{
    if extra.len() > 0 {
        lemma_adopt_calcs_present(existing, extra.drop_last());
        assert(calc_ids(existing).contains(extra[extra.len() - 1].id));
    }
}

proof fn lemma_adopt_datas_present(existing: Seq<DataView>, extra: Seq<DataView>)
    requires
        forall|i: int| 0 <= i < extra.len() ==> data_ids(existing).contains(#[trigger] extra[i].id),
    ensures
        adopt_datas(existing, extra) == existing,
    decreases extra.len(),
{
    if extra.len() > 0 {
        lemma_adopt_datas_present(existing, extra.drop_last());
        assert(data_ids(existing).contains(extra[extra.len() - 1].id));
    }
}

proof fn lemma_adopt_ids_present(existing: Seq<Seq<char>>, extra: Seq<Seq<char>>)
    requires
        forall|i: int| 0 <= i < extra.len() ==> existing.contains(#[trigger] extra[i]),
    ensures
        adopt_ids(existing, extra) == existing,
    decreases extra.len(),
{
    if extra.len() > 0 {
        lemma_adopt_ids_present(existing, extra.drop_last());
        assert(existing.contains(extra[extra.len() - 1]));
    }
}

/// Merging a store into a copy of itself: the templates are compatible, both
/// rename passes are empty, the incoming store is unchanged and the global
/// store gains nothing.
pub proof fn lemma_merge_idempotent(db: DatabaseView)
    requires
        db.wf(),
        identities_distinct(db),
    ensures
        kinds_apart(db, db),
        compatible(db.template, db.template),
        data_renames(db, db, db.datas.len() as int).len() == 0,
        calc_renames(after_data_pass(db, db), db, db.calcs.len() as int).len() == 0,
        canonical(db, db) == db,
        merged(db, db) == db,
{
    let t = db.template;
    assert forall|i: int|
        0 <= i < t.calcs.len() && has_calc(t.calcs, #[trigger] t.calcs[i].id) implies same_calc(
            t.calcs[i],
            calc_with(t.calcs, t.calcs[i].id),
        ) by {
        let q = choose|q: int| 0 <= q < t.calcs.len() && (#[trigger] t.calcs[q]).id == t.calcs[i].id;
        assert(calc_ids(t.calcs)[q] == calc_ids(t.calcs)[i]);
    }
    lemma_no_data_renames(db, db.datas.len() as int);
    lemma_apply_nothing(db, data_renames(db, db, db.datas.len() as int));
    assert(after_data_pass(db, db) == db);
    lemma_no_calc_renames(db, db.calcs.len() as int);
    lemma_apply_nothing(db, calc_renames(db, db, db.calcs.len() as int));
    assert(canonical(db, db) == db);
    assert forall|i: int| 0 <= i < db.calcs.len() implies calc_ids(db.calcs).contains(#[trigger] db.calcs[i].id) by {
        assert(calc_ids(db.calcs)[i] == db.calcs[i].id);
    }
    assert forall|i: int| 0 <= i < db.datas.len() implies data_ids(db.datas).contains(#[trigger] db.datas[i].id) by {
        assert(data_ids(db.datas)[i] == db.datas[i].id);
    }
    assert forall|i: int| 0 <= i < t.calcs.len() implies calc_ids(t.calcs).contains(#[trigger] t.calcs[i].id) by {
        assert(calc_ids(t.calcs)[i] == t.calcs[i].id);
    }
    assert forall|i: int| 0 <= i < t.datas.len() implies t.datas.contains(#[trigger] t.datas[i]) by {
    }
    lemma_adopt_calcs_present(db.calcs, db.calcs);
    lemma_adopt_datas_present(db.datas, db.datas);
    lemma_adopt_calcs_present(t.calcs, t.calcs);
    lemma_adopt_ids_present(t.datas, t.datas);
}

} // verus!
