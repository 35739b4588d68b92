//! The template model: registration, root discovery and instantiation.

use vstd::prelude::*;
use crate::command::{parse_command, parse_spec};
use crate::extras::extras_equal;
use crate::ids::{find_duplicate, find_shared, gen_id, ids_equal, lemma_gen_id_injective, IdGenerator};
use crate::model::{
    copy_extras, ids_view, same_calc, CNode, CNodeTemplate, CalcView, DNode, DNodeTemplate,
    DataView, ExtraData, ExtraValue, GraphError, NodeTemplate, extras_view,
};
use crate::store::{calc_ids, data_ids, disjoint, unique, Database, DatabaseTemplate, DatabaseView, TemplateView};
use crate::text::copy_text;

verus! {

/// The calculation template registered from `name`, `command` and `extra`.
pub open spec fn new_calc_view(
    name: Seq<char>,
    command: Seq<char>,
    extra: Seq<(Seq<char>, ExtraValue)>,
) -> CalcView {
    CalcView {
        id: name,
        template: name,
        command: parse_spec(command).command,
        incoming: parse_spec(command).inputs,
        outcoming: parse_spec(command).outputs,
        extra,
    }
}

/// The blueprint after registering calculation template `new`: unchanged
/// when an identical template has its name, extended when none has it, and
/// `None` (a conflict) when a different one has it.
pub open spec fn registered(t: TemplateView, new: CalcView) -> Option<TemplateView> {
    if has_calc(t.calcs, new.id) {
        if same_calc(calc_with(t.calcs, new.id), new) {
            Some(t)
        } else {
            None
        }
    } else {
        Some(TemplateView { calcs: t.calcs.push(new), datas: t.datas })
    }
}

/// Registering a calculation template a second time with the same name,
/// command and extras changes nothing; registering a different definition
/// under that name afterwards is a conflict.
pub proof fn lemma_register_idempotent(t: TemplateView, new: CalcView, other: CalcView)
    requires
        t.wf(),
        other.id == new.id,
    ensures
        registered(t, new) is Some ==> registered(registered(t, new)->Some_0, new) == registered(t, new),
        registered(t, new) is Some && !same_calc(new, other) ==> registered(registered(t, new)->Some_0, other) is None,
{
    if registered(t, new) is Some {
        let t2 = registered(t, new)->Some_0;
        if !has_calc(t.calcs, new.id) {
            let n = t.calcs.len() as int;
            assert(t2.calcs[n] == new);
            assert(has_calc(t2.calcs, new.id));
            let q = choose|q: int| 0 <= q < t2.calcs.len() && (#[trigger] t2.calcs[q]).id == new.id;
            if q < n {
                assert(t.calcs[q].id == new.id);
            }
            assert(calc_with(t2.calcs, new.id) == new);
        }
        assert(has_calc(t2.calcs, new.id));
        assert(same_calc(calc_with(t2.calcs, new.id), new));
        if !same_calc(new, other) {
            if same_calc(calc_with(t2.calcs, new.id), other) {
                let x = calc_with(t2.calcs, new.id);
                assert forall|k: Seq<char>| #[trigger] crate::model::extra_lookup(new.extra, k) == crate::model::extra_lookup(other.extra, k) by {
                    assert(crate::model::extra_lookup(x.extra, k) == crate::model::extra_lookup(new.extra, k));
                    assert(crate::model::extra_lookup(x.extra, k) == crate::model::extra_lookup(other.extra, k));
                }
            }
        }
    }
}

/// Whether a calculation of the list has identifier `id`.
pub open spec fn has_calc(cs: Seq<CalcView>, id: Seq<char>) -> bool {
    exists|k: int| 0 <= k < cs.len() && (#[trigger] cs[k]).id == id
}

/// The calculation with identifier `id` (meaningful when `has_calc`).
pub open spec fn calc_with(cs: Seq<CalcView>, id: Seq<char>) -> CalcView {
    cs[choose|k: int| 0 <= k < cs.len() && (#[trigger] cs[k]).id == id]
}

/// Some calculation template lists `x` among its outputs.
pub open spec fn produced(t: TemplateView, x: Seq<char>) -> bool {
    exists|k: int| 0 <= k < t.calcs.len() && (#[trigger] t.calcs[k]).outcoming.contains(x)
}

/// A template node without incoming edge: a calculation without inputs, or
/// a data template that no calculation produces.
pub open spec fn is_root(t: TemplateView, x: Seq<char>) -> bool {
    ||| exists|k: int| 0 <= k < t.calcs.len() && (#[trigger] t.calcs[k]).id == x && t.calcs[k].incoming.len() == 0
    ||| t.datas.contains(x) && !produced(t, x)
}

/// `x` is an input or output of a calculation template but no data template.
pub open spec fn dangling(t: TemplateView, x: Seq<char>) -> bool {
    &&& exists|k: int| 0 <= k < t.calcs.len() && ((#[trigger] t.calcs[k]).incoming.contains(x) || t.calcs[k].outcoming.contains(x))
    &&& !t.datas.contains(x)
}

/// Every input and output of a calculation template is a data template.
pub open spec fn refs_ok(t: TemplateView) -> bool {
    forall|x: Seq<char>| !dangling(t, x)
}

/// Leaf bindings seen as pairs of character sequences.
pub open spec fn leafs_view(v: Seq<(String, String)>) -> Seq<(Seq<char>, Seq<char>)> {
    v.map_values(|e: (String, String)| (e.0@, e.1@))
}

/// The name bound to `x` by the first binding for it.
pub open spec fn binding(leafs: Seq<(Seq<char>, Seq<char>)>, x: Seq<char>) -> Option<Seq<char>>
    decreases leafs.len(),
{
    if leafs.len() == 0 {
        None
    } else if leafs[0].0 == x {
        Some(leafs[0].1)
    } else {
        binding(leafs.drop_first(), x)
    }
}

/// A root template that has no binding.
pub open spec fn unbound(t: TemplateView, leafs: Seq<(Seq<char>, Seq<char>)>, x: Seq<char>) -> bool {
    is_root(t, x) && binding(leafs, x) is None
}

/// Instance identifier of the `k`-th data template: its binding, else the
/// identifier generated for counter value `start + k`.
pub open spec fn data_instance_id(
    t: TemplateView,
    leafs: Seq<(Seq<char>, Seq<char>)>,
    prefix: Seq<char>,
    start: nat,
    k: int,
) -> Seq<char> {
    match binding(leafs, t.datas[k]) {
        Some(v) => v,
        None => gen_id(prefix, start + k as nat),
    }
}

/// Instance identifier for data template `x`.
pub open spec fn ref_instance_id(
    t: TemplateView,
    leafs: Seq<(Seq<char>, Seq<char>)>,
    prefix: Seq<char>,
    start: nat,
    x: Seq<char>,
) -> Seq<char> {
    data_instance_id(t, leafs, prefix, start, choose|j: int| 0 <= j < t.datas.len() && t.datas[j] == x)
}

/// The data instances of an instantiation.
pub open spec fn instance_datas(
    t: TemplateView,
    leafs: Seq<(Seq<char>, Seq<char>)>,
    prefix: Seq<char>,
    start: nat,
) -> Seq<DataView> {
    Seq::new(
        t.datas.len(),
        |k: int| DataView { id: data_instance_id(t, leafs, prefix, start, k), template: t.datas[k] },
    )
}

/// The calculation instances of an instantiation: the `k`-th calculation
/// template gets the identifier for counter value `start + data count + k`.
pub open spec fn instance_calcs(
    t: TemplateView,
    leafs: Seq<(Seq<char>, Seq<char>)>,
    prefix: Seq<char>,
    start: nat,
) -> Seq<CalcView> {
    Seq::new(
        t.calcs.len(),
        |k: int|
            CalcView {
                id: gen_id(prefix, start + t.datas.len() + k as nat),
                template: t.calcs[k].id,
                command: Seq::empty(),
                incoming: t.calcs[k].incoming.map_values(
                    |x: Seq<char>| ref_instance_id(t, leafs, prefix, start, x),
                ),
                outcoming: t.calcs[k].outcoming.map_values(
                    |x: Seq<char>| ref_instance_id(t, leafs, prefix, start, x),
                ),
                extra: Seq::empty(),
            },
    )
}

/// The name bound to `x`.
pub fn lookup_binding(leafs: &Vec<(String, String)>, x: &String) -> (r: Option<String>)
    ensures
        match r {
            Some(v) => binding(leafs_view(leafs@), x@) == Some(v@),
            None => binding(leafs_view(leafs@), x@) is None,
        },
{
    let ghost whole = leafs_view(leafs@);
    assert(whole.subrange(0, whole.len() as int) =~= whole);
    let mut i: usize = 0;
    while i < leafs.len()
        invariant
            i <= leafs@.len(),
            whole == leafs_view(leafs@),
            binding(whole, x@) == binding(whole.subrange(i as int, whole.len() as int), x@),
        decreases leafs@.len() - i,
    {
        let ghost rest = whole.subrange(i as int, whole.len() as int);
        if leafs[i].0 == *x {
            assert(rest[0] == whole[i as int]);
            return Some(copy_text(&leafs[i].1));
        }
        assert(rest.drop_first() =~= whole.subrange(i + 1, whole.len() as int));
        i = i + 1;
    }
    None
}

/// Whether two calculation templates have the same fields.
pub fn calc_template_equal(a: &CNodeTemplate, b: &CNodeTemplate) -> (r: bool)
    ensures
        r == same_calc(a@, b@),
{
    a.id == b.id && a.command == b.command && ids_equal(&a.incoming, &b.incoming) && ids_equal(
        &a.outcoming,
        &b.outcoming,
    ) && extras_equal(&a.extra, &b.extra)
}

pub fn contains_id(v: &Vec<String>, x: &String) -> (r: bool)
    ensures
        r == ids_view(v@).contains(x@),
{
    let mut i: usize = 0;
    while i < v.len()
        invariant
            i <= v@.len(),
            forall|j: int| 0 <= j < i ==> (#[trigger] v@[j])@ != x@,
        decreases v@.len() - i,
    {
        if v[i] == *x {
            assert(ids_view(v@)[i as int] == x@);
            return true;
        }
        i = i + 1;
    }
    assert(!ids_view(v@).contains(x@)) by {
        if ids_view(v@).contains(x@) {
            let j = choose|j: int| 0 <= j < ids_view(v@).len() && ids_view(v@)[j] == x@;
            assert(v@[j]@ == x@);
        }
    }
    false
}

impl DatabaseTemplate {
    /// An empty blueprint.
    pub fn new() -> (r: DatabaseTemplate)
        ensures
            r@.calcs.len() == 0,
            r@.datas.len() == 0,
            r@.wf(),
    {
        DatabaseTemplate { cnodes: Vec::new(), dnodes: Vec::new() }
    }

    /// Position of the calculation template `id`.
    pub fn find_calc(&self, id: &String) -> (r: Option<usize>)
        ensures
            match r {
                Some(k) => k < self@.calcs.len() && self@.calcs[k as int].id == id@,
                None => !has_calc(self@.calcs, id@),
            },
    {
        let mut i: usize = 0;
        while i < self.cnodes.len()
            invariant
                i <= self.cnodes@.len(),
                forall|j: int| 0 <= j < i ==> (#[trigger] self@.calcs[j]).id != id@,
            decreases self.cnodes@.len() - i,
        {
            if self.cnodes[i].id == *id {
                return Some(i);
            }
            i = i + 1;
        }
        None
    }

    /// Position of the data template `id`.
    pub fn find_data(&self, id: &String) -> (r: Option<usize>)
        ensures
            match r {
                Some(k) => k < self@.datas.len() && self@.datas[k as int] == id@,
                None => !self@.datas.contains(id@),
            },
    {
        let mut i: usize = 0;
        while i < self.dnodes.len()
            invariant
                i <= self.dnodes@.len(),
                forall|j: int| 0 <= j < i ==> (#[trigger] self@.datas[j]) != id@,
            decreases self.dnodes@.len() - i,
        {
            if self.dnodes[i].id == *id {
                return Some(i);
            }
            i = i + 1;
        }
        None
    }

    /// The template named `name`: a calculation template if there is one,
    /// else a data template.
    pub fn get(&self, name: String) -> (r: Option<NodeTemplate>)
        requires
            self@.wf(),
        ensures
            match r {
                Some(NodeTemplate::Calculation(c)) => has_calc(self@.calcs, name@) && c@ == calc_with(self@.calcs, name@),
                Some(NodeTemplate::Data(d)) => !has_calc(self@.calcs, name@) && self@.datas.contains(name@) && d@ == name@,
                None => !has_calc(self@.calcs, name@) && !self@.datas.contains(name@),
            },
    {
        match self.find_calc(&name) {
            Some(k) => {
                proof {
                    let j = choose|j: int| 0 <= j < self@.calcs.len() && (#[trigger] self@.calcs[j]).id == name@;
                    assert(calc_ids(self@.calcs)[j] == calc_ids(self@.calcs)[k as int]);
                }
                Some(NodeTemplate::Calculation(self.cnodes[k].copy()))
            },
            None => match self.find_data(&name) {
                Some(k) => Some(NodeTemplate::Data(self.dnodes[k].copy())),
                None => None,
            },
        }
    }

    /// Registers a data template; registering an existing name changes nothing.
    pub fn register_dnode(&mut self, name: String) -> (r: DNodeTemplate)
        requires
            old(self)@.wf(),
        ensures
            final(self)@.wf(),
            r@ == name@,
            final(self)@.calcs == old(self)@.calcs,
            final(self)@.datas == if old(self)@.datas.contains(name@) {
                old(self)@.datas
            } else {
                old(self)@.datas.push(name@)
            },
    {
        let d = DNodeTemplate { id: copy_text(&name) };
        match self.find_data(&name) {
            Some(_) => {},
            None => {
                let ghost before = self@;
                self.dnodes.push(DNodeTemplate { id: name });
                assert(self@.datas =~= before.datas.push(d@));
                assert(self@.calcs =~= before.calcs);
            },
        }
        d
    }

    /// A calculation template parsed from `command`, not registered.
    pub fn create_calculation_node(&self, name: String, command: String) -> (r: CNodeTemplate)
        ensures
            r@ == new_calc_view(name@, command@, Seq::empty()),
    {
        let parsed = parse_command(&command);
        let r = CNodeTemplate {
            id: name,
            incoming: parsed.1,
            outcoming: parsed.2,
            command: parsed.0,
            extra: Vec::new(),
        };
        assert(extras_view(r.extra@) =~= Seq::<(Seq<char>, ExtraValue)>::empty());
        r
    }

    /// Registers a calculation template parsed from `command`, with the
    /// given extra defaults. An identical re-registration changes nothing; a
    /// different definition under an existing name is a conflict.
    pub fn register_cnode_with(
        &mut self,
        name: String,
        command: String,
        extra: &Vec<(String, ExtraData)>,
    ) -> (r: Result<CNodeTemplate, GraphError>)
        requires
            old(self)@.wf(),
        ensures
            final(self)@.wf(),
            ({
                let new = new_calc_view(name@, command@, extras_view(extra@));
                match registered(old(self)@, new) {
                    Some(t) => final(self)@ == t && (r matches Ok(c) && c@ == new),
                    None => final(self)@ == old(self)@ && (r matches Err(GraphError::TemplateConflict(n))
                        && n@ == name@),
                }
            }),
    {
        let mut node = self.create_calculation_node(copy_text(&name), command);
        node.extra = copy_extras(extra);
        match self.find_calc(&name) {
            Some(k) => {
                proof {
                    let j = choose|j: int|
                        0 <= j < self@.calcs.len() && (#[trigger] self@.calcs[j]).id == name@;
                    assert(calc_ids(self@.calcs)[j] == calc_ids(self@.calcs)[k as int]);
                }
                if calc_template_equal(&self.cnodes[k], &node) {
                    Ok(node)
                } else {
                    Err(GraphError::TemplateConflict(name))
                }
            },
            None => {
                let ghost before = self@;
                let copy = node.copy();
                self.cnodes.push(copy);
                assert(self@.calcs =~= before.calcs.push(node@));
                assert(self@.datas =~= before.datas);
                proof {
                    assert forall|a: int, b: int|
                        0 <= a < calc_ids(self@.calcs).len() && 0 <= b < calc_ids(self@.calcs).len()
                            && a != b implies calc_ids(self@.calcs)[a] != calc_ids(self@.calcs)[b] by {
                        if a == before.calcs.len() {
                            assert(before.calcs[b].id != name@);
                        } else if b == before.calcs.len() {
                            assert(before.calcs[a].id != name@);
                        } else {
                            assert(calc_ids(before.calcs)[a] != calc_ids(before.calcs)[b]);
                        }
                    }
                }
                Ok(node)
            },
        }
    }

    /// Registers a calculation template without extra defaults.
    pub fn register_cnode(&mut self, name: String, command: String) -> (r: Result<CNodeTemplate, GraphError>)
        requires
            old(self)@.wf(),
        ensures
            final(self)@.wf(),
            ({
                let new = new_calc_view(name@, command@, Seq::empty());
                match registered(old(self)@, new) {
                    Some(t) => final(self)@ == t && (r matches Ok(c) && c@ == new),
                    None => final(self)@ == old(self)@ && (r matches Err(GraphError::TemplateConflict(n))
                        && n@ == name@),
                }
            }),
    {
        let none: Vec<(String, ExtraData)> = Vec::new();
        assert(extras_view(none@) =~= Seq::<(Seq<char>, ExtraValue)>::empty());
        self.register_cnode_with(name, command, &none)
    }

    fn is_produced(&self, x: &String) -> (r: bool)
        ensures
            r == produced(self@, x@),
    {
        let mut k: usize = 0;
        while k < self.cnodes.len()
            invariant
                k <= self.cnodes@.len(),
                forall|j: int| 0 <= j < k ==> !(#[trigger] self@.calcs[j]).outcoming.contains(x@),
            decreases self.cnodes@.len() - k,
        {
            if contains_id(&self.cnodes[k].outcoming, x) {
                assert(self@.calcs[k as int].outcoming.contains(x@));
                return true;
            }
            k = k + 1;
        }
        false
    }

    /// The template nodes without incoming edge: the leaves a caller must bind.
    pub fn find_root_nodes(&self) -> (r: Vec<String>)
        ensures
            forall|x: Seq<char>| ids_view(r@).contains(x) <==> is_root(self@, x),
    {
        let mut r: Vec<String> = Vec::new();
        let mut k: usize = 0;
        while k < self.cnodes.len()
            invariant
                k <= self.cnodes@.len(),
                forall|x: Seq<char>|
                    ids_view(r@).contains(x) <==> exists|j: int|
                        0 <= j < k && (#[trigger] self@.calcs[j]).id == x && self@.calcs[j].incoming.len()
                            == 0,
            decreases self.cnodes@.len() - k,
        {
            if self.cnodes[k].incoming.len() == 0 {
                let ghost before = ids_view(r@);
                r.push(copy_text(&self.cnodes[k].id));
                assert(ids_view(r@) =~= before.push(self@.calcs[k as int].id));
                assert forall|x: Seq<char>|
                    ids_view(r@).contains(x) <==> exists|j: int|
                        0 <= j < k + 1 && (#[trigger] self@.calcs[j]).id == x
                            && self@.calcs[j].incoming.len() == 0 by {
                    if ids_view(r@).contains(x) && x != self@.calcs[k as int].id {
                        assert(before.contains(x)) by {
                            let i = choose|i: int| 0 <= i < ids_view(r@).len() && ids_view(r@)[i] == x;
                            assert(before[i] == x);
                        }
                    }
                    if x == self@.calcs[k as int].id {
                        assert(ids_view(r@)[before.len() as int] == x);
                    }
                    if before.contains(x) {
                        let i = choose|i: int| 0 <= i < before.len() && before[i] == x;
                        assert(ids_view(r@)[i] == x);
                    }
                }
            }
            k = k + 1;
        }
        let ghost ncalc = ids_view(r@);
        let mut d: usize = 0;
        while d < self.dnodes.len()
            invariant
                d <= self.dnodes@.len(),
                k == self.cnodes@.len(),
                forall|x: Seq<char>|
                    ids_view(r@).contains(x) <==> (exists|j: int|
                        0 <= j < k && (#[trigger] self@.calcs[j]).id == x && self@.calcs[j].incoming.len()
                            == 0) || (exists|j: int|
                        0 <= j < d && (#[trigger] self@.datas[j]) == x && !produced(self@, x)),
            decreases self.dnodes@.len() - d,
        {
            if !self.is_produced(&self.dnodes[d].id) {
                let ghost before = ids_view(r@);
                r.push(copy_text(&self.dnodes[d].id));
                assert(ids_view(r@) =~= before.push(self@.datas[d as int]));
                assert forall|x: Seq<char>|
                    ids_view(r@).contains(x) <==> (exists|j: int|
                        0 <= j < k && (#[trigger] self@.calcs[j]).id == x && self@.calcs[j].incoming.len()
                            == 0) || (exists|j: int|
                        0 <= j < d + 1 && (#[trigger] self@.datas[j]) == x && !produced(self@, x)) by {
                    if ids_view(r@).contains(x) && x != self@.datas[d as int] {
                        assert(before.contains(x)) by {
                            let i = choose|i: int| 0 <= i < ids_view(r@).len() && ids_view(r@)[i] == x;
                            assert(before[i] == x);
                        }
                    }
                    if x == self@.datas[d as int] {
                        assert(ids_view(r@)[before.len() as int] == x);
                    }
                    if before.contains(x) {
                        let i = choose|i: int| 0 <= i < before.len() && before[i] == x;
                        assert(ids_view(r@)[i] == x);
                    }
                }
            }
            d = d + 1;
        }
        assert forall|x: Seq<char>| ids_view(r@).contains(x) <==> is_root(self@, x) by {
            if self@.datas.contains(x) && !produced(self@, x) {
                let j = choose|j: int| 0 <= j < self@.datas.len() && self@.datas[j] == x;
                assert(self@.datas[j] == x);
            }
            if exists|j: int| 0 <= j < d && (#[trigger] self@.datas[j]) == x && !produced(self@, x) {
                let j = choose|j: int| 0 <= j < d && (#[trigger] self@.datas[j]) == x && !produced(self@, x);
                assert(self@.datas.contains(x));
            }
        }
        r
    }
}

} // verus!

verus! {

/// The instance graph that instantiation builds.
pub open spec fn instance_of(
    t: TemplateView,
    leafs: Seq<(Seq<char>, Seq<char>)>,
    prefix: Seq<char>,
    start: nat,
) -> DatabaseView {
    DatabaseView {
        template: t,
        calcs: instance_calcs(t, leafs, prefix, start),
        datas: instance_datas(t, leafs, prefix, start),
    }
}

/// Instantiation is deterministic: the same blueprint and bindings, with
/// generators in the same state, give the same instance graph.
pub proof fn lemma_instantiate_deterministic(
    t: TemplateView,
    leafs: Seq<(Seq<char>, Seq<char>)>,
    prefix1: Seq<char>,
    start1: nat,
    prefix2: Seq<char>,
    start2: nat,
)
    requires
        prefix1 == prefix2,
        start1 == start2,
    ensures
        instance_of(t, leafs, prefix1, start1) == instance_of(t, leafs, prefix2, start2),
{
}

impl DatabaseTemplate {
    fn first_dangling(&self) -> (r: Option<String>)
        ensures
            match r {
                Some(x) => dangling(self@, x@),
                None => refs_ok(self@),
            },
    {
        let mut k: usize = 0;
        while k < self.cnodes.len()
            invariant
                k <= self.cnodes@.len(),
                forall|j: int, x: Seq<char>|
                    #![trigger self@.calcs[j].incoming.contains(x)]
                    #![trigger self@.calcs[j].outcoming.contains(x)]
                    0 <= j < k && (self@.calcs[j].incoming.contains(x)
                        || self@.calcs[j].outcoming.contains(x)) ==> self@.datas.contains(x),
            decreases self.cnodes@.len() - k,
        {
            let c = &self.cnodes[k];
            let mut i: usize = 0;
            while i < c.incoming.len()
                invariant
                    k < self.cnodes@.len(),
                    c == &self.cnodes@[k as int],
                    i <= c.incoming@.len(),
                    forall|m: int| 0 <= m < i ==> self@.datas.contains(#[trigger] c.incoming@[m]@),
                decreases c.incoming@.len() - i,
            {
                if self.find_data(&c.incoming[i]).is_none() {
                    assert(self@.calcs[k as int].incoming[i as int] == c.incoming@[i as int]@);
                    return Some(copy_text(&c.incoming[i]));
                }
                i = i + 1;
            }
            let mut o: usize = 0;
            while o < c.outcoming.len()
                invariant
                    k < self.cnodes@.len(),
                    c == &self.cnodes@[k as int],
                    o <= c.outcoming@.len(),
                    forall|m: int| 0 <= m < o ==> self@.datas.contains(#[trigger] c.outcoming@[m]@),
                decreases c.outcoming@.len() - o,
            {
                if self.find_data(&c.outcoming[o]).is_none() {
                    assert(self@.calcs[k as int].outcoming[o as int] == c.outcoming@[o as int]@);
                    return Some(copy_text(&c.outcoming[o]));
                }
                o = o + 1;
            }
            assert forall|x: Seq<char>|
                (self@.calcs[k as int].incoming.contains(x) || self@.calcs[k as int].outcoming.contains(x))
                    implies self@.datas.contains(x) by {
                if self@.calcs[k as int].incoming.contains(x) {
                    let m = choose|m: int|
                        0 <= m < self@.calcs[k as int].incoming.len() && self@.calcs[k as int].incoming[m] == x;
                    assert(c.incoming@[m]@ == x);
                } else {
                    let m = choose|m: int|
                        0 <= m < self@.calcs[k as int].outcoming.len() && self@.calcs[k as int].outcoming[m] == x;
                    assert(c.outcoming@[m]@ == x);
                }
            }
            k = k + 1;
        }
        None
    }

    fn map_refs(
        &self,
        refs: &Vec<String>,
        datas: &Vec<DNode>,
        Ghost(leafs): Ghost<Seq<(Seq<char>, Seq<char>)>>,
        Ghost(prefix): Ghost<Seq<char>>,
        Ghost(start): Ghost<nat>,
    ) -> (r: Vec<String>)
        requires
            self@.wf(),
            forall|m: int| 0 <= m < refs@.len() ==> self@.datas.contains(#[trigger] refs@[m]@),
            datas@.map_values(|d: DNode| d@) == instance_datas(self@, leafs, prefix, start),
            datas@.len() == self@.datas.len(),
        ensures
            ids_view(r@) == ids_view(refs@).map_values(
                |x: Seq<char>| ref_instance_id(self@, leafs, prefix, start, x),
            ),
    {
        let ghost t = self@;
        let mut r: Vec<String> = Vec::new();
        let mut i: usize = 0;
        while i < refs.len()
            invariant
                t == self@,
                t.wf(),
                forall|m: int| 0 <= m < refs@.len() ==> t.datas.contains(#[trigger] refs@[m]@),
                datas@.map_values(|d: DNode| d@) == instance_datas(t, leafs, prefix, start),
                datas@.len() == t.datas.len(),
                i <= refs@.len(),
                r@.len() == i,
                forall|m: int|
                    0 <= m < i ==> (#[trigger] r@[m])@ == ref_instance_id(t, leafs, prefix, start, refs@[m]@),
            decreases refs@.len() - i,
        {
            assert(t.datas.contains(refs@[i as int]@));
            match self.find_data(&refs[i]) {
                Some(j) => {
                    proof {
                        let c = choose|c: int| 0 <= c < t.datas.len() && t.datas[c] == refs@[i as int]@;
                        assert(c == j as int);
                        assert(datas@.map_values(|d: DNode| d@)[j as int] == datas@[j as int]@);
                    }
                    r.push(copy_text(&datas[j].id));
                },
                None => {
                    assert(false);
                    r.push(String::new());
                },
            }
            i = i + 1;
        }
        assert(ids_view(r@) =~= ids_view(refs@).map_values(
            |x: Seq<char>| ref_instance_id(t, leafs, prefix, start, x),
        ));
        r
    }

    /// Instantiates the blueprint. Every root template must have a binding
    /// in `leafs`; all missing ones are reported together. A data template
    /// takes its binding as instance identifier, or a generated one; each
    /// calculation gets a generated identifier. One generator value is used
    /// per template, data templates first; the generator does not move on
    /// failure.
    pub fn create_calculation(&self, leafs: &Vec<(String, String)>, gen: &mut IdGenerator) -> (r:
        Result<Database, GraphError>)
        requires
            self@.wf(),
            old(gen).next + self@.datas.len() + self@.calcs.len() <= u64::MAX,
        ensures
            ({
                let t = self@;
                let l = leafs_view(leafs@);
                let start = old(gen).next as nat;
                let prefix = old(gen).prefix@;
                let inst = instance_of(t, l, prefix, start);
                &&& final(gen).prefix@ == prefix
                &&& match r {
                    Ok(db) => {
                        &&& refs_ok(t)
                        &&& forall|x: Seq<char>| !unbound(t, l, x)
                        &&& unique(data_ids(inst.datas))
                        &&& disjoint(calc_ids(inst.calcs), data_ids(inst.datas))
                        &&& db@ == inst
                        &&& db@.wf()
                        &&& final(gen).next == start + t.datas.len() + t.calcs.len()
                    },
                    Err(GraphError::ReferentialIntegrity(x)) => {
                        &&& forall|x: Seq<char>| !unbound(t, l, x)
                        &&& dangling(t, x@)
                        &&& final(gen).next == start
                    },
                    Err(GraphError::MissingRootBinding(v)) => {
                        &&& exists|x: Seq<char>| unbound(t, l, x)
                        &&& forall|x: Seq<char>| ids_view(v@).contains(x) <==> unbound(t, l, x)
                        &&& final(gen).next == start
                    },
                    Err(GraphError::DuplicateId(x)) => {
                        &&& refs_ok(t)
                        &&& forall|x: Seq<char>| !unbound(t, l, x)
                        &&& !(unique(data_ids(inst.datas)) && disjoint(calc_ids(inst.calcs), data_ids(inst.datas)))
                        &&& data_ids(inst.datas).contains(x@)
                        &&& ((exists|i: int, j: int|
                            0 <= i < j < inst.datas.len() && (#[trigger] inst.datas[i]).id == x@ && (#[trigger] inst.datas[j]).id == x@)
                            || calc_ids(inst.calcs).contains(x@))
                        &&& final(gen).next == start
                    },
                    _ => false,
                }
            }),
    {
        let ghost t = self@;
        let ghost l = leafs_view(leafs@);
        let ghost prefix = gen.prefix@;
        let ghost gstart = gen.next as nat;
        // Every root needs a binding.
        let roots = self.find_root_nodes();
        let mut missing: Vec<String> = Vec::new();
        let mut i: usize = 0;
        while i < roots.len()
            invariant
                i <= roots@.len(),
                forall|x: Seq<char>| ids_view(roots@).contains(x) <==> is_root(t, x),
                t == self@,
                l == leafs_view(leafs@),
                forall|x: Seq<char>|
                    ids_view(missing@).contains(x) <==> (exists|m: int|
                        0 <= m < i && (#[trigger] roots@[m])@ == x) && binding(l, x) is None,
            decreases roots@.len() - i,
        {
            if lookup_binding(leafs, &roots[i]).is_none() {
                let ghost before = ids_view(missing@);
                missing.push(copy_text(&roots[i]));
                assert(ids_view(missing@) =~= before.push(roots@[i as int]@));
                assert forall|x: Seq<char>|
                    ids_view(missing@).contains(x) <==> (exists|m: int|
                        0 <= m < i + 1 && (#[trigger] roots@[m])@ == x) && binding(l, x) is None by {
                    if ids_view(missing@).contains(x) && x != roots@[i as int]@ {
                        let c = choose|c: int| 0 <= c < ids_view(missing@).len() && ids_view(missing@)[c] == x;
                        assert(before[c] == x);
                    }
                    if x == roots@[i as int]@ {
                        assert(ids_view(missing@)[before.len() as int] == x);
                    }
                    if before.contains(x) {
                        let c = choose|c: int| 0 <= c < before.len() && before[c] == x;
                        assert(ids_view(missing@)[c] == x);
                    }
                }
            }
            i = i + 1;
        }
        assert forall|x: Seq<char>| ids_view(missing@).contains(x) <==> unbound(t, l, x) by {
            if is_root(t, x) {
                assert(ids_view(roots@).contains(x));
                let m = choose|m: int| 0 <= m < ids_view(roots@).len() && ids_view(roots@)[m] == x;
                assert(roots@[m]@ == x);
            }
            if exists|m: int| 0 <= m < i && (#[trigger] roots@[m])@ == x {
                let m = choose|m: int| 0 <= m < i && (#[trigger] roots@[m])@ == x;
                assert(ids_view(roots@)[m] == x);
            }
        }
        if missing.len() > 0 {
            assert(ids_view(missing@).contains(ids_view(missing@)[0]));
            assert(unbound(t, l, ids_view(missing@)[0]));
            return Err(GraphError::MissingRootBinding(missing));
        }
        assert forall|x: Seq<char>| !unbound(t, l, x) by {
            if unbound(t, l, x) {
                assert(ids_view(missing@).contains(x));
            }
        }
        if let Some(x) = self.first_dangling() {
            return Err(GraphError::ReferentialIntegrity(x));
        }
        // Data instances.
        let start = gen.next;
        let nd = self.dnodes.len();
        let nc = self.cnodes.len();
        let mut datas: Vec<DNode> = Vec::new();
        let mut data_names: Vec<String> = Vec::new();
        let mut k: usize = 0;
        while k < nd
            invariant
                t == self@,
                l == leafs_view(leafs@),
                prefix == gen.prefix@,
                gstart == start,
                nd == t.datas.len(),
                start + nd + nc <= u64::MAX,
                k <= nd,
                datas@.len() == k,
                data_names@.len() == k,
                forall|m: int|
                    0 <= m < k ==> (#[trigger] datas@[m])@ == (DataView {
                        id: data_instance_id(t, l, prefix, start as nat, m),
                        template: t.datas[m],
                    }) && data_names@[m]@ == datas@[m]@.id,
            decreases nd - k,
        {
            let id = match lookup_binding(leafs, &self.dnodes[k].id) {
                Some(v) => v,
                None => gen.id_at(start + k as u64),
            };
            data_names.push(copy_text(&id));
            datas.push(DNode { id, template: copy_text(&self.dnodes[k].id) });
            k = k + 1;
        }
        assert(datas@.map_values(|d: DNode| d@) =~= instance_datas(t, l, prefix, start as nat));
        assert(ids_view(data_names@) =~= data_ids(instance_datas(t, l, prefix, start as nat)));
        if let Some(dup) = find_duplicate(&data_names) {
            proof {
                let j = choose|j: int| 0 <= j < data_names@.len() && j != dup && (#[trigger] data_names@[j])@ == data_names@[dup as int]@;
                let ds = instance_datas(t, l, prefix, start as nat);
                assert(data_ids(ds)[j] == data_names@[dup as int]@);
                assert(data_ids(ds)[dup as int] == data_names@[dup as int]@);
                let a = if j < dup { j } else { dup as int };
                let b = if j < dup { dup as int } else { j };
                let inst = instance_of(t, l, prefix, start as nat);
                assert(inst.datas == ds);
                assert(inst.datas[a].id == data_names@[dup as int]@ && inst.datas[b].id == data_names@[dup as int]@);
                assert(!unique(data_ids(ds)));
            }
            return Err(GraphError::DuplicateId(copy_text(&data_names[dup])));
        }
        let mut calc_names: Vec<String> = Vec::new();
        let mut c: usize = 0;
        while c < nc
            invariant
                prefix == gen.prefix@,
                start + nd + nc <= u64::MAX,
                c <= nc,
                calc_names@.len() == c,
                forall|m: int| 0 <= m < c ==> (#[trigger] calc_names@[m])@ == gen_id(prefix, (start + nd + m) as nat),
            decreases nc - c,
        {
            calc_names.push(gen.id_at(start + nd as u64 + c as u64));
            c = c + 1;
        }
        assert(ids_view(calc_names@) =~= calc_ids(instance_calcs(t, l, prefix, start as nat)));
        if let Some(i) = find_shared(&data_names, &calc_names) {
            proof {
                let inst = instance_of(t, l, prefix, start as nat);
                assert(data_ids(inst.datas)[i as int] == data_names@[i as int]@);
                let j = choose|j: int| 0 <= j < ids_view(calc_names@).len() && ids_view(calc_names@)[j] == data_names@[i as int]@;
                assert(calc_ids(inst.calcs)[j] == data_ids(inst.datas)[i as int]);
            }
            return Err(GraphError::DuplicateId(copy_text(&data_names[i])));
        }
        // Calculation instances.
        let mut calcs: Vec<CNode> = Vec::new();
        let mut c: usize = 0;
        while c < nc
            invariant
                t == self@,
                t.wf(),
                refs_ok(t),
                l == leafs_view(leafs@),
                prefix == gen.prefix@,
                nd == t.datas.len(),
                nc == t.calcs.len(),
                start + nd + nc <= u64::MAX,
                datas@.map_values(|d: DNode| d@) == instance_datas(t, l, prefix, start as nat),
                datas@.len() == nd,
                c <= nc,
                calcs@.len() == c,
                ids_view(calc_names@) == calc_ids(instance_calcs(t, l, prefix, start as nat)),
                calc_names@.len() == nc,
                forall|m: int|
                    0 <= m < c ==> (#[trigger] calcs@[m])@ == instance_calcs(t, l, prefix, start as nat)[m],
            decreases nc - c,
        {
            let tc = &self.cnodes[c];
            assert(tc@ == t.calcs[c as int]);
            assert forall|m: int| 0 <= m < tc.incoming@.len() implies t.datas.contains(
                #[trigger] tc.incoming@[m]@,
            ) by {
                assert(t.calcs[c as int].incoming[m] == tc.incoming@[m]@);
                assert(!dangling(t, tc.incoming@[m]@));
            }
            assert forall|m: int| 0 <= m < tc.outcoming@.len() implies t.datas.contains(
                #[trigger] tc.outcoming@[m]@,
            ) by {
                assert(t.calcs[c as int].outcoming[m] == tc.outcoming@[m]@);
                assert(!dangling(t, tc.outcoming@[m]@));
            }
            let incoming = self.map_refs(&tc.incoming, &datas, Ghost(l), Ghost(prefix), Ghost(start as nat));
            let outcoming = self.map_refs(&tc.outcoming, &datas, Ghost(l), Ghost(prefix), Ghost(start as nat));
            let node = CNode {
                id: copy_text(&calc_names[c]),
                template: copy_text(&tc.id),
                incoming,
                outcoming,
                extra: Vec::new(),
            };
            assert(extras_view(node.extra@) =~= Seq::<(Seq<char>, ExtraValue)>::empty());
            assert(calc_ids(instance_calcs(t, l, prefix, start as nat))[c as int] == calc_names@[c as int]@);
            assert(node@ == instance_calcs(t, l, prefix, start as nat)[c as int]);
            calcs.push(node);
            c = c + 1;
        }
        gen.next = start + nd as u64 + nc as u64;
        let db = Database { template: self.copy(), cnodes: calcs, dnodes: datas };
        let ghost inst = instance_of(t, l, prefix, start as nat);
        assert(db@.calcs =~= inst.calcs);
        assert(db@.datas =~= inst.datas);
        proof {
            assert forall|a: int, b: int|
                0 <= a < calc_ids(inst.calcs).len() && 0 <= b < data_ids(inst.datas).len() implies #[trigger] calc_ids(
                inst.calcs,
            )[a] != #[trigger] data_ids(inst.datas)[b] by {
                assert(ids_view(data_names@)[b] != ids_view(calc_names@)[a]);
            }
            assert forall|a: int, b: int|
                0 <= a < calc_ids(inst.calcs).len() && 0 <= b < calc_ids(inst.calcs).len() && a != b
                    implies calc_ids(inst.calcs)[a] != calc_ids(inst.calcs)[b] by {
                if calc_ids(inst.calcs)[a] == calc_ids(inst.calcs)[b] {
                    lemma_gen_id_injective(prefix, (start + nd + a) as nat, (start + nd + b) as nat);
                }
            }
            assert forall|k: int, x: Seq<char>|
                #![trigger inst.calcs[k].incoming.contains(x)]
                #![trigger inst.calcs[k].outcoming.contains(x)]
                0 <= k < inst.calcs.len() && (inst.calcs[k].incoming.contains(x)
                    || inst.calcs[k].outcoming.contains(x)) implies data_ids(inst.datas).contains(x) by {
                let tk = t.calcs[k];
                let f = |y: Seq<char>| ref_instance_id(t, l, prefix, start as nat, y);
                let y = if inst.calcs[k].incoming.contains(x) {
                    let m = choose|m: int| 0 <= m < inst.calcs[k].incoming.len() && inst.calcs[k].incoming[m] == x;
                    assert(tk.incoming.contains(tk.incoming[m]));
                    tk.incoming[m]
                } else {
                    let m = choose|m: int| 0 <= m < inst.calcs[k].outcoming.len() && inst.calcs[k].outcoming[m] == x;
                    assert(tk.outcoming.contains(tk.outcoming[m]));
                    tk.outcoming[m]
                };
                assert(x == f(y));
                assert(!dangling(t, y));
                let j = choose|j: int| 0 <= j < t.datas.len() && t.datas[j] == y;
                assert(data_ids(inst.datas)[j] == x);
            }
        }
        Ok(db)
    }
}

} // verus!
