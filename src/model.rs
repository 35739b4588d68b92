//! Templates, instances and their mathematical views.

use vstd::prelude::*;
use crate::text::copy_text;

verus! {

/// Identifiers seen as character sequences.
pub open spec fn ids_view(v: Seq<String>) -> Seq<Seq<char>> {
    v.map_values(|s: String| s@)
}

/// Extra data that can be passed to templates or nodes. A value set on an
/// instance takes precedence over the default of its template.
#[derive(Debug)]
pub enum ExtraData {
    Int(i32),
    String(String),
    Bool(bool),
}

/// View of an extra value.
pub enum ExtraValue {
    Int(i32),
    Text(Seq<char>),
    Bool(bool),
}

impl View for ExtraData {
    type V = ExtraValue;

    open spec fn view(&self) -> ExtraValue {
        match self {
            ExtraData::Int(i) => ExtraValue::Int(*i),
            ExtraData::String(s) => ExtraValue::Text(s@),
            ExtraData::Bool(b) => ExtraValue::Bool(*b),
        }
    }
}

/// View of a list of named extra values.
pub open spec fn extras_view(v: Seq<(String, ExtraData)>) -> Seq<(Seq<char>, ExtraValue)> {
    v.map_values(|e: (String, ExtraData)| (e.0@, e.1@))
}

/// The value of the first entry named `k`.
pub open spec fn extra_lookup(v: Seq<(Seq<char>, ExtraValue)>, k: Seq<char>) -> Option<ExtraValue>
    decreases v.len(),
{
    if v.len() == 0 {
        None
    } else if v[0].0 == k {
        Some(v[0].1)
    } else {
        extra_lookup(v.drop_first(), k)
    }
}

/// Two lists of extra values that name the same values.
pub open spec fn same_extras(a: Seq<(Seq<char>, ExtraValue)>, b: Seq<(Seq<char>, ExtraValue)>) -> bool {
    forall|k: Seq<char>| #[trigger] extra_lookup(a, k) == extra_lookup(b, k)
}

/// A data template: a name for a class of artifact.
#[derive(Debug)]
pub struct DNodeTemplate {
    pub id: String,
}

/// A calculation template: a command whose inputs and outputs are positional
/// placeholders bound to data templates.
#[derive(Debug)]
pub struct CNodeTemplate {
    pub id: String,
    pub command: String,
    pub incoming: Vec<String>,
    pub outcoming: Vec<String>,
    pub extra: Vec<(String, ExtraData)>,
}

/// A data instance.
#[derive(Debug)]
pub struct DNode {
    pub id: String,
    pub template: String,
}

/// A calculation instance.
#[derive(Debug)]
pub struct CNode {
    pub id: String,
    pub template: String,
    pub incoming: Vec<String>,
    pub outcoming: Vec<String>,
    pub extra: Vec<(String, ExtraData)>,
}

/// Either kind of instance.
#[derive(Debug)]
pub enum Node {
    Calculation(CNode),
    Data(DNode),
}

/// Either kind of template.
#[derive(Debug)]
pub enum NodeTemplate {
    Calculation(CNodeTemplate),
    Data(DNodeTemplate),
}

/// View of a calculation template or a calculation instance.
pub struct CalcView {
    pub id: Seq<char>,
    pub template: Seq<char>,
    pub command: Seq<char>,
    pub incoming: Seq<Seq<char>>,
    pub outcoming: Seq<Seq<char>>,
    pub extra: Seq<(Seq<char>, ExtraValue)>,
}

/// View of a data instance.
pub struct DataView {
    pub id: Seq<char>,
    pub template: Seq<char>,
}

/// View of an instance.
pub enum NodeView {
    Calculation(CalcView),
    Data(DataView),
}

impl View for DNodeTemplate {
    type V = Seq<char>;

    open spec fn view(&self) -> Seq<char> {
        self.id@
    }
}

impl View for CNodeTemplate {
    type V = CalcView;

    open spec fn view(&self) -> CalcView {
        CalcView {
            id: self.id@,
            template: self.id@,
            command: self.command@,
            incoming: ids_view(self.incoming@),
            outcoming: ids_view(self.outcoming@),
            extra: extras_view(self.extra@),
        }
    }
}

impl View for DNode {
    type V = DataView;

    open spec fn view(&self) -> DataView {
        DataView { id: self.id@, template: self.template@ }
    }
}

impl View for CNode {
    type V = CalcView;

    open spec fn view(&self) -> CalcView {
        CalcView {
            id: self.id@,
            template: self.template@,
            command: Seq::empty(),
            incoming: ids_view(self.incoming@),
            outcoming: ids_view(self.outcoming@),
            extra: extras_view(self.extra@),
        }
    }
}

impl View for Node {
    type V = NodeView;

    open spec fn view(&self) -> NodeView {
        match self {
            Node::Calculation(c) => NodeView::Calculation(c@),
            Node::Data(d) => NodeView::Data(d@),
        }
    }
}

/// Two calculation templates with the same fields; extra values are compared
/// by name, not by position.
pub open spec fn same_calc(a: CalcView, b: CalcView) -> bool {
    &&& a.id == b.id
    &&& a.template == b.template
    &&& a.command == b.command
    &&& a.incoming == b.incoming
    &&& a.outcoming == b.outcoming
    &&& same_extras(a.extra, b.extra)
}

/// The errors of the store.
#[derive(Debug)]
pub enum GraphError {
    /// A referenced node or template is absent.
    NotFound(String),
    /// A re-registration differs from the stored definition.
    TemplateConflict(String),
    /// Instantiation left these root templates unbound.
    MissingRootBinding(Vec<String>),
    /// An `extra(key)` placeholder has no value anywhere.
    UnresolvedPlaceholder(String),
    /// An input or output list references a node that does not exist.
    ReferentialIntegrity(String),
    /// A template present in two stores that are merged differs between them.
    TemplateMismatch(String),
    /// Two instances of one kind would share this identifier.
    DuplicateId(String),
}

/// A copy of a list of identifiers.
pub fn copy_ids(v: &Vec<String>) -> (r: Vec<String>)
    ensures
        ids_view(r@) == ids_view(v@),
{
    let mut r: Vec<String> = Vec::new();
    let mut i: usize = 0;
    while i < v.len()
        invariant
            i <= v@.len(),
            r@.len() == i,
            forall|k: int| 0 <= k < i ==> (#[trigger] r@[k])@ == v@[k]@,
        decreases v@.len() - i,
    {
        r.push(copy_text(&v[i]));
        i = i + 1;
    }
    assert(ids_view(r@) =~= ids_view(v@));
    r
}

impl ExtraData {
    /// A copy of this value.
    pub fn copy(&self) -> (r: ExtraData)
        ensures
            r@ == self@,
    {
        match self {
            ExtraData::Int(i) => ExtraData::Int(*i),
            ExtraData::String(s) => ExtraData::String(copy_text(s)),
            ExtraData::Bool(b) => ExtraData::Bool(*b),
        }
    }
}

/// A copy of a list of extra values.
pub fn copy_extras(v: &Vec<(String, ExtraData)>) -> (r: Vec<(String, ExtraData)>)
    ensures
        extras_view(r@) == extras_view(v@),
{
    let mut r: Vec<(String, ExtraData)> = Vec::new();
    let mut i: usize = 0;
    while i < v.len()
        invariant
            i <= v@.len(),
            r@.len() == i,
            forall|k: int| 0 <= k < i ==> (#[trigger] r@[k]).0@ == v@[k].0@ && r@[k].1@ == v@[k].1@,
        decreases v@.len() - i,
    {
        let e = &v[i];
        r.push((copy_text(&e.0), e.1.copy()));
        i = i + 1;
    }
    assert(extras_view(r@) =~= extras_view(v@));
    r
}

impl DNodeTemplate {
    /// A copy of this template.
    pub fn copy(&self) -> (r: DNodeTemplate)
        ensures
            r@ == self@,
    {
        DNodeTemplate { id: copy_text(&self.id) }
    }
}

impl CNodeTemplate {
    /// A copy of this template.
    pub fn copy(&self) -> (r: CNodeTemplate)
        ensures
            r@ == self@,
    {
        CNodeTemplate {
            id: copy_text(&self.id),
            command: copy_text(&self.command),
            incoming: copy_ids(&self.incoming),
            outcoming: copy_ids(&self.outcoming),
            extra: copy_extras(&self.extra),
        }
    }
}

impl DNode {
    /// A copy of this instance.
    pub fn copy(&self) -> (r: DNode)
        ensures
            r@ == self@,
    {
        DNode { id: copy_text(&self.id), template: copy_text(&self.template) }
    }
}

impl CNode {
    /// A copy of this instance.
    pub fn copy(&self) -> (r: CNode)
        ensures
            r@ == self@,
    {
        CNode {
            id: copy_text(&self.id),
            template: copy_text(&self.template),
            incoming: copy_ids(&self.incoming),
            outcoming: copy_ids(&self.outcoming),
            extra: copy_extras(&self.extra),
        }
    }
}

impl Node {
    /// The identifier of the instance.
    pub fn id(&self) -> (r: String)
        ensures
            r@ == match self@ {
                NodeView::Calculation(c) => c.id,
                NodeView::Data(d) => d.id,
            },
    {
        match self {
            Node::Calculation(a) => copy_text(&a.id),
            Node::Data(a) => copy_text(&a.id),
        }
    }

    /// The outputs of a calculation; a data instance has none.
    pub fn outcoming(&self) -> (r: Vec<String>)
        ensures
            ids_view(r@) == match self@ {
                NodeView::Calculation(c) => c.outcoming,
                NodeView::Data(d) => Seq::<Seq<char>>::empty(),
            },
    {
        match self {
            Node::Calculation(a) => copy_ids(&a.outcoming),
            Node::Data(_) => {
                let r: Vec<String> = Vec::new();
                assert(ids_view(r@) =~= Seq::<Seq<char>>::empty());
                r
            },
        }
    }
}

/// Index of the first identifier equal to `x`.
pub open spec fn index_of(s: Seq<Seq<char>>, x: Seq<char>) -> int
    decreases s.len(),
{
    if s.len() == 0 {
        -1
    } else if s[0] == x {
        0
    } else {
        let r = index_of(s.drop_first(), x);
        if r < 0 {
            -1
        } else {
            r + 1
        }
    }
}

/// Searches a list of identifiers.
pub fn find_id(v: &Vec<String>, x: &String) -> (r: Option<usize>)
    ensures
        match r {
            Some(i) => i < v@.len() && v@[i as int]@ == x@ && forall|j: int|
                0 <= j < i ==> (#[trigger] v@[j])@ != x@,
            None => forall|j: int| 0 <= j < v@.len() ==> (#[trigger] v@[j])@ != x@,
        },
{
    let mut i: usize = 0;
    while i < v.len()
        invariant
            i <= v@.len(),
            forall|j: int| 0 <= j < i ==> (#[trigger] v@[j])@ != x@,
        decreases v@.len() - i,
    {
        if v[i] == *x {
            return Some(i);
        }
        i = i + 1;
    }
    None
}

} // verus!
