//! A flat store of named calculation and data nodes carrying free-form
//! tags, with selection by tag, by name and by substring.

use vstd::prelude::*;
use crate::merge::adopt_ids;
use crate::model::{copy_ids, ids_view};
use crate::store::unique;
use vstd::string::*;
use crate::text::{contains_text, copy_text, decimal, occurs_in, push_char, push_decimal, push_text, replace_all, replace_text};

verus! {

/// Inputs, outputs and the command of a calculation node; the command
/// refers to them as `$input_k` and `$output_k`.
#[derive(Debug)]
pub struct CalculationManager {
    pub inputs: Vec<String>,
    pub outputs: Vec<String>,
    pub program: String,
}

/// Where a node was copied from.
#[derive(Debug)]
pub struct CopyManager {
    pub name: String,
    pub origin: String,
}

/// A calculation node.
#[derive(Debug)]
pub struct CalculationNode {
    pub git_hash: String,
    pub tags: Vec<String>,
    pub calculation: CalculationManager,
    pub copy: CopyManager,
}

/// A data node.
#[derive(Debug)]
pub struct DataNode {
    pub save: bool,
    pub tags: Vec<String>,
    pub copy: CopyManager,
}

/// The store: calculation and data nodes, each keyed by a unique name.
#[derive(Debug)]
pub struct JsonStorage {
    pub calculation_nodes: Vec<(String, CalculationNode)>,
    pub data_nodes: Vec<(String, DataNode)>,
}

/// View of a calculation manager.
pub struct ManagerView {
    pub inputs: Seq<Seq<char>>,
    pub outputs: Seq<Seq<char>>,
    pub program: Seq<char>,
}

/// View of a node of either kind; `manager` is empty for data nodes.
pub struct TaggedView {
    pub tags: Seq<Seq<char>>,
    pub save: bool,
    pub git_hash: Seq<char>,
    pub manager: ManagerView,
    pub copy: (Seq<char>, Seq<char>),
}

impl View for CalculationManager {
    type V = ManagerView;

    open spec fn view(&self) -> ManagerView {
        ManagerView { inputs: ids_view(self.inputs@), outputs: ids_view(self.outputs@), program: self.program@ }
    }
}

impl View for CalculationNode {
    type V = TaggedView;

    open spec fn view(&self) -> TaggedView {
        TaggedView {
            tags: ids_view(self.tags@),
            save: false,
            git_hash: self.git_hash@,
            manager: self.calculation@,
            copy: (self.copy.name@, self.copy.origin@),
        }
    }
}

impl View for DataNode {
    type V = TaggedView;

    open spec fn view(&self) -> TaggedView {
        TaggedView {
            tags: ids_view(self.tags@),
            save: self.save,
            git_hash: Seq::empty(),
            manager: ManagerView { inputs: Seq::empty(), outputs: Seq::empty(), program: Seq::empty() },
            copy: (self.copy.name@, self.copy.origin@),
        }
    }
}

/// View of the store.
pub struct StorageView {
    pub calcs: Seq<(Seq<char>, TaggedView)>,
    pub datas: Seq<(Seq<char>, TaggedView)>,
}

impl View for JsonStorage {
    type V = StorageView;

    open spec fn view(&self) -> StorageView {
        StorageView {
            calcs: self.calculation_nodes@.map_values(|e: (String, CalculationNode)| (e.0@, e.1@)),
            datas: self.data_nodes@.map_values(|e: (String, DataNode)| (e.0@, e.1@)),
        }
    }
}

/// Names of a list of entries.
pub open spec fn keys(s: Seq<(Seq<char>, TaggedView)>) -> Seq<Seq<char>> {
    s.map_values(|e: (Seq<char>, TaggedView)| e.0)
}

impl StorageView {
    /// Names are unique within each kind.
    pub open spec fn wf(self) -> bool {
        unique(keys(self.calcs)) && unique(keys(self.datas))
    }
}

/// Inserts an entry, replacing the entry of the same name if there is one.
pub open spec fn upsert(s: Seq<(Seq<char>, TaggedView)>, e: (Seq<char>, TaggedView)) -> Seq<(Seq<char>, TaggedView)> {
    if keys(s).contains(e.0) {
        s.update(choose|i: int| 0 <= i < s.len() && s[i].0 == e.0, e)
    } else {
        s.push(e)
    }
}

/// Inserts the first `n` entries of `extra` in order.
pub open spec fn upsert_all(
    s: Seq<(Seq<char>, TaggedView)>,
    extra: Seq<(Seq<char>, TaggedView)>,
    n: int,
) -> Seq<(Seq<char>, TaggedView)>
    decreases n,
{
    if n <= 0 {
        s
    } else {
        upsert(upsert_all(s, extra, n - 1), extra[n - 1])
    }
}

/// Every node with tags `f(tags)`.
pub open spec fn retag(s: Seq<(Seq<char>, TaggedView)>, f: spec_fn(Seq<Seq<char>>) -> Seq<Seq<char>>) -> Seq<(Seq<char>, TaggedView)> {
    s.map_values(|e: (Seq<char>, TaggedView)| (e.0, TaggedView { tags: f(e.1.tags), ..e.1 }))
}

/// `s` without its first occurrence of `x`.
pub open spec fn remove_first(s: Seq<Seq<char>>, x: Seq<char>) -> Seq<Seq<char>>
    decreases s.len(),
{
    if s.len() == 0 {
        s
    } else if s[0] == x {
        s.drop_first()
    } else {
        seq![s[0]] + remove_first(s.drop_first(), x)
    }
}

/// `s` after removing the first occurrence of each of the first `n` tags of `rm`, in order.
pub open spec fn remove_tags_spec(s: Seq<Seq<char>>, rm: Seq<Seq<char>>, n: int) -> Seq<Seq<char>>
    decreases n,
{
    if n <= 0 {
        s
    } else {
        remove_first(remove_tags_spec(s, rm, n - 1), rm[n - 1])
    }
}

/// A node is selected when one of its tags is included and none is excluded.
pub open spec fn tag_selected(tags: Seq<Seq<char>>, wanted: Seq<Seq<char>>, unwanted: Seq<Seq<char>>) -> bool {
    (exists|i: int| 0 <= i < tags.len() && wanted.contains(#[trigger] tags[i])) && !(exists|i: int|
        0 <= i < tags.len() && unwanted.contains(#[trigger] tags[i]))
}

/// The first `n` entries whose node is selected by tag.
pub open spec fn filter_tagged(
    s: Seq<(Seq<char>, TaggedView)>,
    wanted: Seq<Seq<char>>,
    unwanted: Seq<Seq<char>>,
    n: int,
) -> Seq<(Seq<char>, TaggedView)>
    decreases n,
{
    if n <= 0 {
        Seq::empty()
    } else if tag_selected(s[n - 1].1.tags, wanted, unwanted) {
        filter_tagged(s, wanted, unwanted, n - 1).push(s[n - 1])
    } else {
        filter_tagged(s, wanted, unwanted, n - 1)
    }
}

/// The first `n` entries whose name is not in `names`.
pub open spec fn without_names(s: Seq<(Seq<char>, TaggedView)>, names: Seq<Seq<char>>, n: int) -> Seq<(Seq<char>, TaggedView)>
    decreases n,
{
    if n <= 0 {
        Seq::empty()
    } else if names.contains(s[n - 1].0) {
        without_names(s, names, n - 1)
    } else {
        without_names(s, names, n - 1).push(s[n - 1])
    }
}

/// The entries named by the first `n` of `names`, in that order, each once.
pub open spec fn pick_named(s: Seq<(Seq<char>, TaggedView)>, names: Seq<Seq<char>>, n: int) -> Seq<(Seq<char>, TaggedView)>
    decreases n,
{
    if n <= 0 {
        Seq::empty()
    } else {
        let r = pick_named(s, names, n - 1);
        if keys(s).contains(names[n - 1]) && !keys(r).contains(names[n - 1]) {
            r.push(s[choose|i: int| 0 <= i < s.len() && s[i].0 == names[n - 1]])
        } else {
            r
        }
    }
}

/// Names among the first `n` that contain `p`.
pub open spec fn names_containing(s: Seq<(Seq<char>, TaggedView)>, p: Seq<char>, n: int) -> Seq<Seq<char>>
    decreases n,
{
    if n <= 0 {
        Seq::empty()
    } else if occurs_in(p, s[n - 1].0) {
        names_containing(s, p, n - 1).push(s[n - 1].0)
    } else {
        names_containing(s, p, n - 1)
    }
}

/// `name` joined to the directory `base` with `/` as separator: an
/// absolute `name` stands alone, and no separator is doubled or added to an
/// empty base.
pub open spec fn path_join(base: Seq<char>, name: Seq<char>) -> Seq<char> {
    if name.len() > 0 && name[0] == '/' {
        name
    } else if base.len() > 0 && base.last() != '/' {
        base + seq!['/'] + name
    } else {
        base + name
    }
}

/// The path of `name` relative to `base` (see `path_join`).
pub fn join_path(base: &str, name: &String) -> (r: String)
    ensures
        r@ == path_join(base@, name@),
{
    let n = name.as_str().unicode_len();
    if n > 0 && name.as_str().get_char(0) == '/' {
        return copy_text(name);
    }
    let mut r = String::from_str(base);
    let b = base.unicode_len();
    if b > 0 && base.get_char(b - 1) != '/' {
        push_char(&mut r, '/');
    }
    push_text(&mut r, name);
    r
}

/// Replaces `word k` by the path of the `k`-th name, for the first `n` names in order.
pub open spec fn subst_named(cmd: Seq<char>, word: Seq<char>, names: Seq<Seq<char>>, base: Seq<char>, n: int) -> Seq<char>
    decreases n,
{
    if n <= 0 {
        cmd
    } else {
        replace_all(subst_named(cmd, word, names, base, n - 1), word + decimal((n - 1) as nat), path_join(base, names[n - 1]))
    }
}

/// The text `$output_`.
pub open spec fn output_mark() -> Seq<char> {
    seq!['$', 'o', 'u', 't', 'p', 'u', 't', '_']
}

/// The text `$input_`.
pub open spec fn input_mark() -> Seq<char> {
    seq!['$', 'i', 'n', 'p', 'u', 't', '_']
}

/// The program with outputs, then inputs, replaced by their paths.
pub open spec fn full_program(m: ManagerView, base: Seq<char>) -> Seq<char> {
    subst_named(
        subst_named(m.program, output_mark(), m.outputs, base, m.outputs.len() as int),
        input_mark(),
        m.inputs,
        base,
        m.inputs.len() as int,
    )
}

fn mark_text(output: bool, k: u64) -> (r: String)
    ensures
        r@ == (if output { output_mark() } else { input_mark() }) + decimal(k as nat),
        r@.len() > 0,
{
    let mut r = String::new();
    push_char(&mut r, '$');
    if output {
        push_char(&mut r, 'o');
        push_char(&mut r, 'u');
        push_char(&mut r, 't');
    } else {
        push_char(&mut r, 'i');
        push_char(&mut r, 'n');
    }
    push_char(&mut r, 'p');
    push_char(&mut r, 'u');
    push_char(&mut r, 't');
    push_char(&mut r, '_');
    push_decimal(&mut r, k);
    assert(r@ =~= (if output { output_mark() } else { input_mark() }) + decimal(k as nat));
    r
}

impl CalculationManager {
    /// The command to run: every `$output_k` and then every `$input_k`
    /// becomes the path of the `k`-th output / input under `folder_base`.
    pub fn get_full_program(&self, folder_base: &str) -> (r: String)
        ensures
            r@ == full_program(self@, folder_base@),
    {
        let ghost m = self@;
        let mut cmd = copy_text(&self.program);
        let mut i: usize = 0;
        while i < self.outputs.len()
            invariant
                m == self@,
                i <= self.outputs@.len(),
                cmd@ == subst_named(m.program, output_mark(), m.outputs, folder_base@, i as int),
            decreases self.outputs@.len() - i,
        {
            let from = mark_text(true, i as u64);
            let to = join_path(folder_base, &self.outputs[i]);
            cmd = replace_text(&cmd, &from, &to);
            i = i + 1;
        }
        let ghost mid = cmd@;
        let mut j: usize = 0;
        while j < self.inputs.len()
            invariant
                m == self@,
                j <= self.inputs@.len(),
                cmd@ == subst_named(mid, input_mark(), m.inputs, folder_base@, j as int),
            decreases self.inputs@.len() - j,
        {
            let from = mark_text(false, j as u64);
            let to = join_path(folder_base, &self.inputs[j]);
            cmd = replace_text(&cmd, &from, &to);
            j = j + 1;
        }
        cmd
    }

    /// A copy of this manager.
    pub fn copy(&self) -> (r: CalculationManager)
        ensures
            r@ == self@,
    {
        CalculationManager { inputs: copy_ids(&self.inputs), outputs: copy_ids(&self.outputs), program: copy_text(&self.program) }
    }
}

impl CopyManager {
    /// A copy of this record.
    pub fn copy(&self) -> (r: CopyManager)
        ensures
            r.name@ == self.name@,
            r.origin@ == self.origin@,
    {
        CopyManager { name: copy_text(&self.name), origin: copy_text(&self.origin) }
    }
}

impl CalculationNode {
    /// A copy of this node with other tags.
    pub fn with_tags(&self, tags: Vec<String>) -> (r: CalculationNode)
        ensures
            r@ == (TaggedView { tags: ids_view(tags@), ..self@ }),
    {
        CalculationNode {
            git_hash: copy_text(&self.git_hash),
            tags,
            calculation: self.calculation.copy(),
            copy: self.copy.copy(),
        }
    }
}

impl DataNode {
    /// A copy of this node with other tags.
    pub fn with_tags(&self, tags: Vec<String>) -> (r: DataNode)
        ensures
            r@ == (TaggedView { tags: ids_view(tags@), ..self@ }),
    {
        DataNode { save: self.save, tags, copy: self.copy.copy() }
    }
}

/// Position of the entry named `k`.
pub fn find_key<V>(v: &Vec<(String, V)>, k: &String) -> (r: Option<usize>)
    ensures
        match r {
            Some(i) => i < v@.len() && v@[i as int].0@ == k@,
            None => forall|j: int| 0 <= j < v@.len() ==> (#[trigger] v@[j]).0@ != k@,
        },
{
    let mut i: usize = 0;
    while i < v.len()
        invariant
            i <= v@.len(),
            forall|j: int| 0 <= j < i ==> (#[trigger] v@[j]).0@ != k@,
        decreases v@.len() - i,
    {
        if v[i].0 == *k {
            return Some(i);
        }
        i = i + 1;
    }
    None
}

/// `tags` followed by the tags of `add` it lacks.
pub fn add_tags_to(tags: &Vec<String>, add: &Vec<String>) -> (r: Vec<String>)
    ensures
        ids_view(r@) == adopt_ids(ids_view(tags@), ids_view(add@)),
{
    let mut r = copy_ids(tags);
    let mut k: usize = 0;
    while k < add.len()
        invariant
            k <= add@.len(),
            ids_view(r@) == adopt_ids(ids_view(tags@), ids_view(add@).subrange(0, k as int)),
        decreases add@.len() - k,
    {
        assert(ids_view(add@).subrange(0, k + 1).drop_last() =~= ids_view(add@).subrange(0, k as int));
        if !crate::template::contains_id(&r, &add[k]) {
            let ghost before = ids_view(r@);
            r.push(copy_text(&add[k]));
            assert(ids_view(r@) =~= before.push(add@[k as int]@));
        }
        k = k + 1;
    }
    assert(ids_view(add@).subrange(0, add@.len() as int) =~= ids_view(add@));
    r
}

proof fn lemma_remove_first_at(s: Seq<Seq<char>>, x: Seq<char>, i: int)
    requires
        0 <= i < s.len(),
        s[i] == x,
        forall|j: int| 0 <= j < i ==> s[j] != x,
    ensures
        remove_first(s, x) == s.remove(i),
    decreases s.len(),
{
    if i > 0 {
        lemma_remove_first_at(s.drop_first(), x, i - 1);
        assert(seq![s[0]] + s.drop_first().remove(i - 1) =~= s.remove(i));
    } else {
        assert(s.drop_first() =~= s.remove(0));
    }
}

proof fn lemma_remove_first_absent(s: Seq<Seq<char>>, x: Seq<char>)
    requires
        forall|j: int| 0 <= j < s.len() ==> s[j] != x,
    ensures
        remove_first(s, x) == s,
    decreases s.len(),
{
    if s.len() > 0 {
        lemma_remove_first_absent(s.drop_first(), x);
        assert(seq![s[0]] + s.drop_first() =~= s);
    }
}

/// `tags` after removing the first occurrence of each tag of `rm`, in order.
pub fn remove_tags_from(tags: &Vec<String>, rm: &Vec<String>) -> (r: Vec<String>)
    ensures
        ids_view(r@) == remove_tags_spec(ids_view(tags@), ids_view(rm@), rm@.len() as int),
{
    let mut r = copy_ids(tags);
    let mut k: usize = 0;
    while k < rm.len()
        invariant
            k <= rm@.len(),
            ids_view(r@) == remove_tags_spec(ids_view(tags@), ids_view(rm@), k as int),
        decreases rm@.len() - k,
    {
        let ghost before = ids_view(r@);
        match crate::model::find_id(&r, &rm[k]) {
            Some(i) => {
                proof {
                    lemma_remove_first_at(before, rm@[k as int]@, i as int);
                }
                r.remove(i);
                assert(ids_view(r@) =~= before.remove(i as int));
            },
            None => {
                proof {
                    lemma_remove_first_absent(before, rm@[k as int]@);
                }
            },
        }
        k = k + 1;
    }
    r
}

fn any_in(tags: &Vec<String>, set: &Vec<String>) -> (r: bool)
    ensures
        r == exists|i: int| 0 <= i < tags@.len() && ids_view(set@).contains(#[trigger] ids_view(tags@)[i]),
{
    let mut i: usize = 0;
    while i < tags.len()
        invariant
            i <= tags@.len(),
            forall|j: int| 0 <= j < i ==> !ids_view(set@).contains(#[trigger] ids_view(tags@)[j]),
        decreases tags@.len() - i,
    {
        if crate::template::contains_id(set, &tags[i]) {
            assert(ids_view(set@).contains(ids_view(tags@)[i as int]));
            return true;
        }
        i = i + 1;
    }
    false
}

/// Whether a node with `tags` is selected.
pub fn selected(tags: &Vec<String>, wanted: &Vec<String>, unwanted: &Vec<String>) -> (r: bool)
    ensures
        r == tag_selected(ids_view(tags@), ids_view(wanted@), ids_view(unwanted@)),
{
    any_in(tags, wanted) && !any_in(tags, unwanted)
}

/// Calculation entries with tags `f(tags)`.
fn retag_calcs(v: &Vec<(String, CalculationNode)>, Ghost(f): Ghost<spec_fn(Seq<Seq<char>>) -> Seq<Seq<char>>>, mode: u8, arg: &Vec<String>) -> (r: Vec<(String, CalculationNode)>)
    requires
        mode == 0 ==> forall|t: Seq<Seq<char>>| #[trigger] f(t) == adopt_ids(t, ids_view(arg@)),
        mode == 1 ==> forall|t: Seq<Seq<char>>| #[trigger] f(t) == ids_view(arg@),
        mode == 2 ==> forall|t: Seq<Seq<char>>| #[trigger] f(t) == remove_tags_spec(t, ids_view(arg@), arg@.len() as int),
        mode <= 2,
    ensures
        r@.map_values(|e: (String, CalculationNode)| (e.0@, e.1@)) == retag(v@.map_values(|e: (String, CalculationNode)| (e.0@, e.1@)), f),
{
    let mut r: Vec<(String, CalculationNode)> = Vec::new();
    let mut i: usize = 0;
    while i < v.len()
        invariant
            i <= v@.len(),
            r@.len() == i,
            mode == 0 ==> forall|t: Seq<Seq<char>>| #[trigger] f(t) == adopt_ids(t, ids_view(arg@)),
            mode == 1 ==> forall|t: Seq<Seq<char>>| #[trigger] f(t) == ids_view(arg@),
            mode == 2 ==> forall|t: Seq<Seq<char>>| #[trigger] f(t) == remove_tags_spec(t, ids_view(arg@), arg@.len() as int),
            mode <= 2,
            forall|j: int|
                0 <= j < i ==> (#[trigger] r@[j]).0@ == v@[j].0@ && r@[j].1@ == (TaggedView { tags: f(v@[j].1@.tags), ..v@[j].1@ }),
        decreases v@.len() - i,
    {
        let e = &v[i];
        let tags = if mode == 0 {
            add_tags_to(&e.1.tags, arg)
        } else if mode == 1 {
            copy_ids(arg)
        } else {
            remove_tags_from(&e.1.tags, arg)
        };
        r.push((copy_text(&e.0), e.1.with_tags(tags)));
        i = i + 1;
    }
    assert(r@.map_values(|e: (String, CalculationNode)| (e.0@, e.1@)) =~= retag(v@.map_values(|e: (String, CalculationNode)| (e.0@, e.1@)), f));
    r
}

/// Calculation entries selected by tag.
fn filter_calcs(v: &Vec<(String, CalculationNode)>, wanted: &Vec<String>, unwanted: &Vec<String>) -> (r: Vec<(String, CalculationNode)>)
    ensures
        r@.map_values(|e: (String, CalculationNode)| (e.0@, e.1@)) == filter_tagged(
            v@.map_values(|e: (String, CalculationNode)| (e.0@, e.1@)),
            ids_view(wanted@),
            ids_view(unwanted@),
            v@.len() as int,
        ),
{
    let ghost sv = v@.map_values(|e: (String, CalculationNode)| (e.0@, e.1@));
    let mut r: Vec<(String, CalculationNode)> = Vec::new();
    let mut i: usize = 0;
    while i < v.len()
        invariant
            sv == v@.map_values(|e: (String, CalculationNode)| (e.0@, e.1@)),
            i <= v@.len(),
            r@.map_values(|e: (String, CalculationNode)| (e.0@, e.1@)) == filter_tagged(sv, ids_view(wanted@), ids_view(unwanted@), i as int),
        decreases v@.len() - i,
    {
        let e = &v[i];
        if selected(&e.1.tags, wanted, unwanted) {
            let ghost before = r@.map_values(|e: (String, CalculationNode)| (e.0@, e.1@));
            r.push((copy_text(&e.0), e.1.with_tags(copy_ids(&e.1.tags))));
            assert(r@.map_values(|e: (String, CalculationNode)| (e.0@, e.1@)) =~= before.push(sv[i as int]));
        }
        i = i + 1;
    }
    r
}

/// Calculation entries whose name is not listed.
fn without_calcs(v: &Vec<(String, CalculationNode)>, names: &Vec<String>) -> (r: Vec<(String, CalculationNode)>)
    ensures
        r@.map_values(|e: (String, CalculationNode)| (e.0@, e.1@)) == without_names(
            v@.map_values(|e: (String, CalculationNode)| (e.0@, e.1@)),
            ids_view(names@),
            v@.len() as int,
        ),
{
    let ghost sv = v@.map_values(|e: (String, CalculationNode)| (e.0@, e.1@));
    let mut r: Vec<(String, CalculationNode)> = Vec::new();
    let mut i: usize = 0;
    while i < v.len()
        invariant
            sv == v@.map_values(|e: (String, CalculationNode)| (e.0@, e.1@)),
            i <= v@.len(),
            r@.map_values(|e: (String, CalculationNode)| (e.0@, e.1@)) == without_names(sv, ids_view(names@), i as int),
        decreases v@.len() - i,
    {
        let e = &v[i];
        if !crate::template::contains_id(names, &e.0) {
            let ghost before = r@.map_values(|e: (String, CalculationNode)| (e.0@, e.1@));
            r.push((copy_text(&e.0), e.1.with_tags(copy_ids(&e.1.tags))));
            assert(r@.map_values(|e: (String, CalculationNode)| (e.0@, e.1@)) =~= before.push(sv[i as int]));
        }
        i = i + 1;
    }
    r
}

/// Calculation entries named in `names`, in that order, each once.
fn pick_calcs(v: &Vec<(String, CalculationNode)>, names: &Vec<String>) -> (r: Vec<(String, CalculationNode)>)
    requires
        unique(keys(v@.map_values(|e: (String, CalculationNode)| (e.0@, e.1@)))),
    ensures
        r@.map_values(|e: (String, CalculationNode)| (e.0@, e.1@)) == pick_named(
            v@.map_values(|e: (String, CalculationNode)| (e.0@, e.1@)),
            ids_view(names@),
            names@.len() as int,
        ),
{
    let ghost sv = v@.map_values(|e: (String, CalculationNode)| (e.0@, e.1@));
    let mut r: Vec<(String, CalculationNode)> = Vec::new();
    let mut i: usize = 0;
    while i < names.len()
        invariant
            sv == v@.map_values(|e: (String, CalculationNode)| (e.0@, e.1@)),
            unique(keys(sv)),
            i <= names@.len(),
            r@.map_values(|e: (String, CalculationNode)| (e.0@, e.1@)) == pick_named(sv, ids_view(names@), i as int),
        decreases names@.len() - i,
    {
        let ghost rv = r@.map_values(|e: (String, CalculationNode)| (e.0@, e.1@));
        let n = &names[i];
        match find_key(v, n) {
            Some(j) => {
                assert(keys(sv)[j as int] == n@);
                match find_key(&r, n) {
                    Some(q) => {
                        assert(keys(rv)[q as int] == n@);
                    },
                    None => {
                        proof {
                            let c = choose|c: int| 0 <= c < sv.len() && sv[c].0 == ids_view(names@)[i as int];
                            assert(keys(sv)[c] == keys(sv)[j as int]);
                            assert(!keys(rv).contains(n@)) by {
                                if keys(rv).contains(n@) {
                                    let q = choose|q: int| 0 <= q < keys(rv).len() && keys(rv)[q] == n@;
                                    assert(r@[q].0@ == n@);
                                }
                            }
                        }
                        let e = &v[j];
                        r.push((copy_text(&e.0), e.1.with_tags(copy_ids(&e.1.tags))));
                        assert(r@.map_values(|e: (String, CalculationNode)| (e.0@, e.1@)) =~= rv.push(sv[j as int]));
                    },
                }
            },
            None => {
                assert(!keys(sv).contains(n@)) by {
                    if keys(sv).contains(n@) {
                        let q = choose|q: int| 0 <= q < keys(sv).len() && keys(sv)[q] == n@;
                        assert(v@[q].0@ == n@);
                    }
                }
            },
        }
        i = i + 1;
    }
    r
}

/// Names of calcs entries that contain `p`.
fn similar_calcs(v: &Vec<(String, CalculationNode)>, p: &String) -> (r: Vec<String>)
    ensures
        ids_view(r@) == names_containing(v@.map_values(|e: (String, CalculationNode)| (e.0@, e.1@)), p@, v@.len() as int),
{
    let ghost sv = v@.map_values(|e: (String, CalculationNode)| (e.0@, e.1@));
    let mut r: Vec<String> = Vec::new();
    let mut i: usize = 0;
    while i < v.len()
        invariant
            sv == v@.map_values(|e: (String, CalculationNode)| (e.0@, e.1@)),
            i <= v@.len(),
            ids_view(r@) == names_containing(sv, p@, i as int),
        decreases v@.len() - i,
    {
        if contains_text(&v[i].0, p) {
            let ghost before = ids_view(r@);
            r.push(copy_text(&v[i].0));
            assert(ids_view(r@) =~= before.push(sv[i as int].0));
        }
        i = i + 1;
    }
    r
}

/// Inserts the calcs entries of `extra`, replacing those of the same name.
fn upsert_calcs(v: &mut Vec<(String, CalculationNode)>, extra: &Vec<(String, CalculationNode)>)
    requires
        unique(keys(old(v)@.map_values(|e: (String, CalculationNode)| (e.0@, e.1@)))),
    ensures
        unique(keys(final(v)@.map_values(|e: (String, CalculationNode)| (e.0@, e.1@)))),
        final(v)@.map_values(|e: (String, CalculationNode)| (e.0@, e.1@)) == upsert_all(
            old(v)@.map_values(|e: (String, CalculationNode)| (e.0@, e.1@)),
            extra@.map_values(|e: (String, CalculationNode)| (e.0@, e.1@)),
            extra@.len() as int,
        ),
{
    let ghost start = v@.map_values(|e: (String, CalculationNode)| (e.0@, e.1@));
    let ghost xv = extra@.map_values(|e: (String, CalculationNode)| (e.0@, e.1@));
    let mut i: usize = 0;
    while i < extra.len()
        invariant
            xv == extra@.map_values(|e: (String, CalculationNode)| (e.0@, e.1@)),
            i <= extra@.len(),
            unique(keys(v@.map_values(|e: (String, CalculationNode)| (e.0@, e.1@)))),
            v@.map_values(|e: (String, CalculationNode)| (e.0@, e.1@)) == upsert_all(start, xv, i as int),
        decreases extra@.len() - i,
    {
        let ghost before = v@.map_values(|e: (String, CalculationNode)| (e.0@, e.1@));
        let e = &extra[i];
        let item = (copy_text(&e.0), e.1.with_tags(copy_ids(&e.1.tags)));
        assert((item.0@, item.1@) == xv[i as int]);
        match find_key(v, &e.0) {
            Some(j) => {
                proof {
                    assert(keys(before)[j as int] == e.0@);
                    let c = choose|c: int| 0 <= c < before.len() && before[c].0 == xv[i as int].0;
                    assert(keys(before)[c] == keys(before)[j as int]);
                }
                v.set(j, item);
                assert(v@.map_values(|e: (String, CalculationNode)| (e.0@, e.1@)) =~= before.update(j as int, xv[i as int]));
                assert(keys(v@.map_values(|e: (String, CalculationNode)| (e.0@, e.1@))) =~= keys(before));
            },
            None => {
                assert(!keys(before).contains(e.0@)) by {
                    if keys(before).contains(e.0@) {
                        let q = choose|q: int| 0 <= q < keys(before).len() && keys(before)[q] == e.0@;
                        assert(v@[q].0@ == e.0@);
                    }
                }
                v.push(item);
                assert(v@.map_values(|e: (String, CalculationNode)| (e.0@, e.1@)) =~= before.push(xv[i as int]));
                assert(keys(v@.map_values(|e: (String, CalculationNode)| (e.0@, e.1@))) =~= keys(before).push(e.0@));
            },
        }
        i = i + 1;
    }
}

/// Data entries with tags `f(tags)`.
fn retag_datas(v: &Vec<(String, DataNode)>, Ghost(f): Ghost<spec_fn(Seq<Seq<char>>) -> Seq<Seq<char>>>, mode: u8, arg: &Vec<String>) -> (r: Vec<(String, DataNode)>)
    requires
        mode == 0 ==> forall|t: Seq<Seq<char>>| #[trigger] f(t) == adopt_ids(t, ids_view(arg@)),
        mode == 1 ==> forall|t: Seq<Seq<char>>| #[trigger] f(t) == ids_view(arg@),
        mode == 2 ==> forall|t: Seq<Seq<char>>| #[trigger] f(t) == remove_tags_spec(t, ids_view(arg@), arg@.len() as int),
        mode <= 2,
    ensures
        r@.map_values(|e: (String, DataNode)| (e.0@, e.1@)) == retag(v@.map_values(|e: (String, DataNode)| (e.0@, e.1@)), f),
{
    let mut r: Vec<(String, DataNode)> = Vec::new();
    let mut i: usize = 0;
    while i < v.len()
        invariant
            i <= v@.len(),
            r@.len() == i,
            mode == 0 ==> forall|t: Seq<Seq<char>>| #[trigger] f(t) == adopt_ids(t, ids_view(arg@)),
            mode == 1 ==> forall|t: Seq<Seq<char>>| #[trigger] f(t) == ids_view(arg@),
            mode == 2 ==> forall|t: Seq<Seq<char>>| #[trigger] f(t) == remove_tags_spec(t, ids_view(arg@), arg@.len() as int),
            mode <= 2,
            forall|j: int|
                0 <= j < i ==> (#[trigger] r@[j]).0@ == v@[j].0@ && r@[j].1@ == (TaggedView { tags: f(v@[j].1@.tags), ..v@[j].1@ }),
        decreases v@.len() - i,
    {
        let e = &v[i];
        let tags = if mode == 0 {
            add_tags_to(&e.1.tags, arg)
        } else if mode == 1 {
            copy_ids(arg)
        } else {
            remove_tags_from(&e.1.tags, arg)
        };
        r.push((copy_text(&e.0), e.1.with_tags(tags)));
        i = i + 1;
    }
    assert(r@.map_values(|e: (String, DataNode)| (e.0@, e.1@)) =~= retag(v@.map_values(|e: (String, DataNode)| (e.0@, e.1@)), f));
    r
}

/// Data entries selected by tag.
fn filter_datas(v: &Vec<(String, DataNode)>, wanted: &Vec<String>, unwanted: &Vec<String>) -> (r: Vec<(String, DataNode)>)
    ensures
        r@.map_values(|e: (String, DataNode)| (e.0@, e.1@)) == filter_tagged(
            v@.map_values(|e: (String, DataNode)| (e.0@, e.1@)),
            ids_view(wanted@),
            ids_view(unwanted@),
            v@.len() as int,
        ),
{
    let ghost sv = v@.map_values(|e: (String, DataNode)| (e.0@, e.1@));
    let mut r: Vec<(String, DataNode)> = Vec::new();
    let mut i: usize = 0;
    while i < v.len()
        invariant
            sv == v@.map_values(|e: (String, DataNode)| (e.0@, e.1@)),
            i <= v@.len(),
            r@.map_values(|e: (String, DataNode)| (e.0@, e.1@)) == filter_tagged(sv, ids_view(wanted@), ids_view(unwanted@), i as int),
        decreases v@.len() - i,
    {
        let e = &v[i];
        if selected(&e.1.tags, wanted, unwanted) {
            let ghost before = r@.map_values(|e: (String, DataNode)| (e.0@, e.1@));
            r.push((copy_text(&e.0), e.1.with_tags(copy_ids(&e.1.tags))));
            assert(r@.map_values(|e: (String, DataNode)| (e.0@, e.1@)) =~= before.push(sv[i as int]));
        }
        i = i + 1;
    }
    r
}

/// Data entries whose name is not listed.
fn without_datas(v: &Vec<(String, DataNode)>, names: &Vec<String>) -> (r: Vec<(String, DataNode)>)
    ensures
        r@.map_values(|e: (String, DataNode)| (e.0@, e.1@)) == without_names(
            v@.map_values(|e: (String, DataNode)| (e.0@, e.1@)),
            ids_view(names@),
            v@.len() as int,
        ),
{
    let ghost sv = v@.map_values(|e: (String, DataNode)| (e.0@, e.1@));
    let mut r: Vec<(String, DataNode)> = Vec::new();
    let mut i: usize = 0;
    while i < v.len()
        invariant
            sv == v@.map_values(|e: (String, DataNode)| (e.0@, e.1@)),
            i <= v@.len(),
            r@.map_values(|e: (String, DataNode)| (e.0@, e.1@)) == without_names(sv, ids_view(names@), i as int),
        decreases v@.len() - i,
    {
        let e = &v[i];
        if !crate::template::contains_id(names, &e.0) {
            let ghost before = r@.map_values(|e: (String, DataNode)| (e.0@, e.1@));
            r.push((copy_text(&e.0), e.1.with_tags(copy_ids(&e.1.tags))));
            assert(r@.map_values(|e: (String, DataNode)| (e.0@, e.1@)) =~= before.push(sv[i as int]));
        }
        i = i + 1;
    }
    r
}

/// Data entries named in `names`, in that order, each once.
fn pick_datas(v: &Vec<(String, DataNode)>, names: &Vec<String>) -> (r: Vec<(String, DataNode)>)
    requires
        unique(keys(v@.map_values(|e: (String, DataNode)| (e.0@, e.1@)))),
    ensures
        r@.map_values(|e: (String, DataNode)| (e.0@, e.1@)) == pick_named(
            v@.map_values(|e: (String, DataNode)| (e.0@, e.1@)),
            ids_view(names@),
            names@.len() as int,
        ),
{
    let ghost sv = v@.map_values(|e: (String, DataNode)| (e.0@, e.1@));
    let mut r: Vec<(String, DataNode)> = Vec::new();
    let mut i: usize = 0;
    while i < names.len()
        invariant
            sv == v@.map_values(|e: (String, DataNode)| (e.0@, e.1@)),
            unique(keys(sv)),
            i <= names@.len(),
            r@.map_values(|e: (String, DataNode)| (e.0@, e.1@)) == pick_named(sv, ids_view(names@), i as int),
        decreases names@.len() - i,
    {
        let ghost rv = r@.map_values(|e: (String, DataNode)| (e.0@, e.1@));
        let n = &names[i];
        match find_key(v, n) {
            Some(j) => {
                assert(keys(sv)[j as int] == n@);
                match find_key(&r, n) {
                    Some(q) => {
                        assert(keys(rv)[q as int] == n@);
                    },
                    None => {
                        proof {
                            let c = choose|c: int| 0 <= c < sv.len() && sv[c].0 == ids_view(names@)[i as int];
                            assert(keys(sv)[c] == keys(sv)[j as int]);
                            assert(!keys(rv).contains(n@)) by {
                                if keys(rv).contains(n@) {
                                    let q = choose|q: int| 0 <= q < keys(rv).len() && keys(rv)[q] == n@;
                                    assert(r@[q].0@ == n@);
                                }
                            }
                        }
                        let e = &v[j];
                        r.push((copy_text(&e.0), e.1.with_tags(copy_ids(&e.1.tags))));
                        assert(r@.map_values(|e: (String, DataNode)| (e.0@, e.1@)) =~= rv.push(sv[j as int]));
                    },
                }
            },
            None => {
                assert(!keys(sv).contains(n@)) by {
                    if keys(sv).contains(n@) {
                        let q = choose|q: int| 0 <= q < keys(sv).len() && keys(sv)[q] == n@;
                        assert(v@[q].0@ == n@);
                    }
                }
            },
        }
        i = i + 1;
    }
    r
}

/// Names of datas entries that contain `p`.
fn similar_datas(v: &Vec<(String, DataNode)>, p: &String) -> (r: Vec<String>)
    ensures
        ids_view(r@) == names_containing(v@.map_values(|e: (String, DataNode)| (e.0@, e.1@)), p@, v@.len() as int),
{
    let ghost sv = v@.map_values(|e: (String, DataNode)| (e.0@, e.1@));
    let mut r: Vec<String> = Vec::new();
    let mut i: usize = 0;
    while i < v.len()
        invariant
            sv == v@.map_values(|e: (String, DataNode)| (e.0@, e.1@)),
            i <= v@.len(),
            ids_view(r@) == names_containing(sv, p@, i as int),
        decreases v@.len() - i,
    {
        if contains_text(&v[i].0, p) {
            let ghost before = ids_view(r@);
            r.push(copy_text(&v[i].0));
            assert(ids_view(r@) =~= before.push(sv[i as int].0));
        }
        i = i + 1;
    }
    r
}

/// Inserts the datas entries of `extra`, replacing those of the same name.
fn upsert_datas(v: &mut Vec<(String, DataNode)>, extra: &Vec<(String, DataNode)>)
    requires
        unique(keys(old(v)@.map_values(|e: (String, DataNode)| (e.0@, e.1@)))),
    ensures
        unique(keys(final(v)@.map_values(|e: (String, DataNode)| (e.0@, e.1@)))),
        final(v)@.map_values(|e: (String, DataNode)| (e.0@, e.1@)) == upsert_all(
            old(v)@.map_values(|e: (String, DataNode)| (e.0@, e.1@)),
            extra@.map_values(|e: (String, DataNode)| (e.0@, e.1@)),
            extra@.len() as int,
        ),
{
    let ghost start = v@.map_values(|e: (String, DataNode)| (e.0@, e.1@));
    let ghost xv = extra@.map_values(|e: (String, DataNode)| (e.0@, e.1@));
    let mut i: usize = 0;
    while i < extra.len()
        invariant
            xv == extra@.map_values(|e: (String, DataNode)| (e.0@, e.1@)),
            i <= extra@.len(),
            unique(keys(v@.map_values(|e: (String, DataNode)| (e.0@, e.1@)))),
            v@.map_values(|e: (String, DataNode)| (e.0@, e.1@)) == upsert_all(start, xv, i as int),
        decreases extra@.len() - i,
    {
        let ghost before = v@.map_values(|e: (String, DataNode)| (e.0@, e.1@));
        let e = &extra[i];
        let item = (copy_text(&e.0), e.1.with_tags(copy_ids(&e.1.tags)));
        assert((item.0@, item.1@) == xv[i as int]);
        match find_key(v, &e.0) {
            Some(j) => {
                proof {
                    assert(keys(before)[j as int] == e.0@);
                    let c = choose|c: int| 0 <= c < before.len() && before[c].0 == xv[i as int].0;
                    assert(keys(before)[c] == keys(before)[j as int]);
                }
                v.set(j, item);
                assert(v@.map_values(|e: (String, DataNode)| (e.0@, e.1@)) =~= before.update(j as int, xv[i as int]));
                assert(keys(v@.map_values(|e: (String, DataNode)| (e.0@, e.1@))) =~= keys(before));
            },
            None => {
                assert(!keys(before).contains(e.0@)) by {
                    if keys(before).contains(e.0@) {
                        let q = choose|q: int| 0 <= q < keys(before).len() && keys(before)[q] == e.0@;
                        assert(v@[q].0@ == e.0@);
                    }
                }
                v.push(item);
                assert(v@.map_values(|e: (String, DataNode)| (e.0@, e.1@)) =~= before.push(xv[i as int]));
                assert(keys(v@.map_values(|e: (String, DataNode)| (e.0@, e.1@))) =~= keys(before).push(e.0@));
            },
        }
        i = i + 1;
    }
}

impl JsonStorage {
    /// An empty store.
    pub fn new() -> (r: JsonStorage)
        ensures
            r@.calcs.len() == 0,
            r@.datas.len() == 0,
            r@.wf(),
    {
        let r = JsonStorage { calculation_nodes: Vec::new(), data_nodes: Vec::new() };
        assert(keys(r@.calcs) =~= Seq::<Seq<char>>::empty());
        assert(keys(r@.datas) =~= Seq::<Seq<char>>::empty());
        r
    }

    /// Adds the nodes of `other`; a node of the same name is overwritten.
    pub fn add_database(&mut self, other_db: &JsonStorage)
        requires
            old(self)@.wf(),
        ensures
            final(self)@.wf(),
            final(self)@.calcs == upsert_all(old(self)@.calcs, other_db@.calcs, other_db@.calcs.len() as int),
            final(self)@.datas == upsert_all(old(self)@.datas, other_db@.datas, other_db@.datas.len() as int),
    {
        upsert_calcs(&mut self.calculation_nodes, &other_db.calculation_nodes);
        upsert_datas(&mut self.data_nodes, &other_db.data_nodes);
    }

    /// Names of the nodes that contain `name`: calculations first.
    pub fn get_similar_nodes(&self, name: &String) -> (r: Vec<String>)
        ensures
            ids_view(r@) == names_containing(self@.calcs, name@, self@.calcs.len() as int) + names_containing(
                self@.datas,
                name@,
                self@.datas.len() as int,
            ),
    {
        let mut r = similar_calcs(&self.calculation_nodes, name);
        let d = similar_datas(&self.data_nodes, name);
        let ghost a = ids_view(r@);
        let mut i: usize = 0;
        while i < d.len()
            invariant
                i <= d@.len(),
                ids_view(r@) == a + ids_view(d@).subrange(0, i as int),
            decreases d@.len() - i,
        {
            let ghost before = ids_view(r@);
            r.push(copy_text(&d[i]));
            assert(ids_view(r@) =~= before.push(d@[i as int]@));
            i = i + 1;
            assert(ids_view(r@) =~= a + ids_view(d@).subrange(0, i as int));
        }
        assert(ids_view(d@).subrange(0, d@.len() as int) =~= ids_view(d@));
        r
    }

    /// Adds each tag of `tag_list` to every node that lacks it.
    pub fn add_tags(&mut self, tag_list: &Vec<String>) -> (r: Result<(), String>)
        ensures
            r is Ok,
            final(self)@.calcs == retag(old(self)@.calcs, |t: Seq<Seq<char>>| adopt_ids(t, ids_view(tag_list@))),
            final(self)@.datas == retag(old(self)@.datas, |t: Seq<Seq<char>>| adopt_ids(t, ids_view(tag_list@))),
    {
        let ghost f = |t: Seq<Seq<char>>| adopt_ids(t, ids_view(tag_list@));
        self.calculation_nodes = retag_calcs(&self.calculation_nodes, Ghost(f), 0, tag_list);
        self.data_nodes = retag_datas(&self.data_nodes, Ghost(f), 0, tag_list);
        Ok(())
    }

    /// Replaces the tags of every node by `tag_list`.
    pub fn set_tags(&mut self, tag_list: &Vec<String>) -> (r: Result<(), String>)
        ensures
            r is Ok,
            final(self)@.calcs == retag(old(self)@.calcs, |t: Seq<Seq<char>>| ids_view(tag_list@)),
            final(self)@.datas == retag(old(self)@.datas, |t: Seq<Seq<char>>| ids_view(tag_list@)),
    {
        let ghost f = |t: Seq<Seq<char>>| ids_view(tag_list@);
        self.calculation_nodes = retag_calcs(&self.calculation_nodes, Ghost(f), 1, tag_list);
        self.data_nodes = retag_datas(&self.data_nodes, Ghost(f), 1, tag_list);
        Ok(())
    }

    /// Removes, for each tag of `tag_list`, its first occurrence from every node.
    pub fn remove_tags(&mut self, tag_list: &Vec<String>) -> (r: Result<(), String>)
        ensures
            r is Ok,
            final(self)@.calcs == retag(
                old(self)@.calcs,
                |t: Seq<Seq<char>>| remove_tags_spec(t, ids_view(tag_list@), tag_list@.len() as int),
            ),
            final(self)@.datas == retag(
                old(self)@.datas,
                |t: Seq<Seq<char>>| remove_tags_spec(t, ids_view(tag_list@), tag_list@.len() as int),
            ),
    {
        let ghost f = |t: Seq<Seq<char>>| remove_tags_spec(t, ids_view(tag_list@), tag_list@.len() as int);
        self.calculation_nodes = retag_calcs(&self.calculation_nodes, Ghost(f), 2, tag_list);
        self.data_nodes = retag_datas(&self.data_nodes, Ghost(f), 2, tag_list);
        Ok(())
    }

    /// The nodes with a tag of `tags_to_include` and none of `tags_to_exclude`.
    pub fn filter_by_tags(&self, tags_to_include: &Vec<String>, tags_to_exclude: &Vec<String>) -> (r: JsonStorage)
        ensures
            r@.calcs == filter_tagged(self@.calcs, ids_view(tags_to_include@), ids_view(tags_to_exclude@), self@.calcs.len() as int),
            r@.datas == filter_tagged(self@.datas, ids_view(tags_to_include@), ids_view(tags_to_exclude@), self@.datas.len() as int),
    {
        JsonStorage {
            calculation_nodes: filter_calcs(&self.calculation_nodes, tags_to_include, tags_to_exclude),
            data_nodes: filter_datas(&self.data_nodes, tags_to_include, tags_to_exclude),
        }
    }

    /// The nodes named in `name_list`.
    pub fn select_by_name(&self, name_list: &Vec<String>) -> (r: JsonStorage)
        requires
            self@.wf(),
        ensures
            r@.calcs == pick_named(self@.calcs, ids_view(name_list@), name_list@.len() as int),
            r@.datas == pick_named(self@.datas, ids_view(name_list@), name_list@.len() as int),
    {
        JsonStorage {
            calculation_nodes: pick_calcs(&self.calculation_nodes, name_list),
            data_nodes: pick_datas(&self.data_nodes, name_list),
        }
    }

    /// Deletes the nodes named in `node_names`.
    pub fn delete(&mut self, node_names: &Vec<String>)
        ensures
            final(self)@.calcs == without_names(old(self)@.calcs, ids_view(node_names@), old(self)@.calcs.len() as int),
            final(self)@.datas == without_names(old(self)@.datas, ids_view(node_names@), old(self)@.datas.len() as int),
    {
        self.calculation_nodes = without_calcs(&self.calculation_nodes, node_names);
        self.data_nodes = without_datas(&self.data_nodes, node_names);
    }
}

} // verus!
