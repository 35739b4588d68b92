use graphrlib::ids::IdGenerator;
use graphrlib::model::{ExtraData, GraphError, Node};
use graphrlib::store::Database;

fn s(x: &str) -> String {
    x.to_string()
}

fn analysis_store() -> Database {
    let mut db = Database::new();
    db.template_register_dnode(s("raw"));
    db.template_register_dnode(s("result"));
    db.template_register_cnode(s("analysis"), s("analyze input(raw) output(result)"), &Vec::new())
        .unwrap();
    db
}

fn calc_ids(db: &Database) -> Vec<String> {
    db.cnodes.iter().map(|c| c.id.clone()).collect()
}

fn data_ids(db: &Database) -> Vec<String> {
    db.dnodes.iter().map(|d| d.id.clone()).collect()
}

#[test]
fn materialization_scenario() {
    let mut db = Database::new();
    db.template_register_dnode(s("a"));
    db.template_register_dnode(s("b"));
    let extra = vec![(s("mode"), ExtraData::String(s("fast")))];
    let t = db
        .template_register_cnode(s("run"), s("python3 input(a) output(b) extra(mode)"), &extra)
        .unwrap();
    assert_eq!(t.command, "python3 $i_0 $o_0 extra(mode)");
    assert_eq!(t.incoming, vec![s("a")]);
    assert_eq!(t.outcoming, vec![s("b")]);

    let mut gen = IdGenerator::new(s("n"), 0);
    let inst = db.template_create_calculation(&vec![(s("a"), s("seedfile"))], &mut gen).unwrap();
    assert_eq!(data_ids(&inst), vec![s("seedfile"), s("n1")]);
    assert_eq!(calc_ids(&inst), vec![s("n2")]);
    assert_eq!(gen.next, 3);
    let cmd = inst.get_command(s("n2"), s("data")).unwrap();
    assert_eq!(cmd, "python3 data/seedfile data/n1 fast");
}

#[test]
fn instance_extra_overrides_template_default() {
    let mut db = Database::new();
    db.template_register_dnode(s("a"));
    let extra = vec![(s("n"), ExtraData::Int(3)), (s("v"), ExtraData::Bool(true))];
    db.template_register_cnode(s("c"), s("tool input(a) -n extra(n) -v extra(v)"), &extra).unwrap();
    let mut gen = IdGenerator::new(s("x"), 10);
    let mut inst = db.template_create_calculation(&vec![(s("a"), s("in"))], &mut gen).unwrap();
    assert_eq!(inst.get_command(s("x11"), s("r")).unwrap(), "tool r/in -n 3 -v true");
    inst.cnodes[0].extra.push((s("n"), ExtraData::Int(-42)));
    assert_eq!(inst.get_command(s("x11"), s("r")).unwrap(), "tool r/in -n -42 -v true");
    assert_eq!(inst.get_extra(&s("x11"), &s("n")), Some(s("-42")));
    assert_eq!(inst.get_extra(&s("x11"), &s("v")), Some(s("true")));
    assert_eq!(inst.get_extra(&s("x11"), &s("w")), None);
}

#[test]
fn unresolved_placeholder_is_an_error() {
    let mut db = Database::new();
    db.template_register_dnode(s("a"));
    db.template_register_cnode(s("c"), s("tool input(a) extra(level)"), &Vec::new()).unwrap();
    let mut gen = IdGenerator::new(s("g"), 0);
    let inst = db.template_create_calculation(&vec![(s("a"), s("in"))], &mut gen).unwrap();
    match inst.get_command(s("g1"), s("d")) {
        Err(GraphError::UnresolvedPlaceholder(k)) => assert_eq!(k, "level"),
        _ => panic!("expected an unresolved placeholder"),
    }
    assert!(matches!(inst.get_command(s("nope"), s("d")), Err(GraphError::NotFound(_))));
}

#[test]
fn failure_scenario_missing_root() {
    let db = analysis_store();
    let mut gen = IdGenerator::new(s("t"), 5);
    let r = db.template_create_calculation(&Vec::new(), &mut gen);
    match r {
        Err(GraphError::MissingRootBinding(v)) => assert_eq!(v, vec![s("raw")]),
        _ => panic!("expected a missing root binding"),
    }
    assert_eq!(gen.next, 5);
    assert_eq!(db.cnodes.len(), 0);
    assert_eq!(db.dnodes.len(), 0);
}

#[test]
fn missing_roots_are_reported_together() {
    let mut db = Database::new();
    db.template_register_dnode(s("p"));
    db.template_register_dnode(s("q"));
    db.template_register_dnode(s("o"));
    db.template_register_cnode(s("join"), s("cat input(p) input(q) > output(o)"), &Vec::new()).unwrap();
    let mut gen = IdGenerator::new(s("t"), 0);
    match db.template_create_calculation(&Vec::new(), &mut gen) {
        Err(GraphError::MissingRootBinding(v)) => assert_eq!(v, vec![s("p"), s("q")]),
        _ => panic!("expected a missing root binding"),
    }
}

#[test]
fn dangling_template_reference_is_an_error() {
    let mut db = Database::new();
    db.template_register_dnode(s("a"));
    db.template_register_cnode(s("c"), s("run input(a) output(zz)"), &Vec::new()).unwrap();
    let mut gen = IdGenerator::new(s("t"), 0);
    match db.template_create_calculation(&vec![(s("a"), s("x"))], &mut gen) {
        Err(GraphError::ReferentialIntegrity(x)) => assert_eq!(x, "zz"),
        _ => panic!("expected a referential integrity error"),
    }
}

#[test]
fn duplicate_data_ids_are_rejected() {
    let mut db = Database::new();
    db.template_register_dnode(s("p"));
    db.template_register_dnode(s("q"));
    let mut gen = IdGenerator::new(s("t"), 0);
    let leafs = vec![(s("p"), s("same")), (s("q"), s("same"))];
    match db.template_create_calculation(&leafs, &mut gen) {
        Err(GraphError::DuplicateId(x)) => assert_eq!(x, "same"),
        _ => panic!("expected a duplicate identifier"),
    }
    assert_eq!(gen.next, 0);
}

#[test]
fn registration_is_idempotent() {
    let mut db = analysis_store();
    let again = db.template_register_cnode(s("analysis"), s("analyze input(raw) output(result)"), &Vec::new());
    assert!(again.is_ok());
    assert_eq!(db.template.cnodes.len(), 1);
    let other = db.template_register_cnode(s("analysis"), s("analyze2 input(raw) output(result)"), &Vec::new());
    match other {
        Err(GraphError::TemplateConflict(n)) => assert_eq!(n, "analysis"),
        _ => panic!("expected a template conflict"),
    }
    assert_eq!(db.template.cnodes[0].command, "analyze $i_0 $o_0");
    let extra = vec![(s("k"), ExtraData::Int(1))];
    assert!(matches!(
        db.template_register_cnode(s("analysis"), s("analyze input(raw) output(result)"), &extra),
        Err(GraphError::TemplateConflict(_))
    ));
}

#[test]
fn extras_compare_by_name() {
    let mut db = Database::new();
    let e1 = vec![(s("a"), ExtraData::Int(1)), (s("b"), ExtraData::Bool(false))];
    let e2 = vec![(s("b"), ExtraData::Bool(false)), (s("a"), ExtraData::Int(1))];
    db.template_register_cnode(s("c"), s("x"), &e1).unwrap();
    assert!(db.template_register_cnode(s("c"), s("x"), &e2).is_ok());
}

#[test]
fn instantiation_is_deterministic() {
    let db = analysis_store();
    let leafs = vec![(s("raw"), s("sample_A"))];
    let mut g1 = IdGenerator::new(s("id"), 100);
    let mut g2 = IdGenerator::new(s("id"), 100);
    let a = db.template_create_calculation(&leafs, &mut g1).unwrap();
    let b = db.template_create_calculation(&leafs, &mut g2).unwrap();
    assert_eq!(calc_ids(&a), calc_ids(&b));
    assert_eq!(data_ids(&a), data_ids(&b));
    assert_eq!(a.cnodes[0].incoming, b.cnodes[0].incoming);
    assert_eq!(a.cnodes[0].outcoming, b.cnodes[0].outcoming);
    assert_eq!(calc_ids(&a), vec![s("id102")]);
    assert_eq!(data_ids(&a), vec![s("sample_A"), s("id101")]);
    assert_eq!(g1.next, 103);
}

#[test]
fn dedup_scenario() {
    let db = analysis_store();
    let leafs = vec![(s("raw"), s("sample_A"))];
    let mut gen = IdGenerator::new(s("g"), 0);
    let mut first = db.template_create_calculation(&leafs, &mut gen).unwrap();
    let mut second = db.template_create_calculation(&leafs, &mut gen).unwrap();
    assert_ne!(calc_ids(&first), calc_ids(&second));
    let mut global = Database::new();
    first.check_against_and_register(&mut global).unwrap();
    second.check_against_and_register(&mut global).unwrap();
    assert_eq!(global.cnodes.len(), 1);
    assert_eq!(global.dnodes.len(), 2);
    assert_eq!(calc_ids(&second), calc_ids(&first));
    assert_eq!(data_ids(&second), data_ids(&first));
    assert_eq!(global.cnodes[0].outcoming, vec![s("g1")]);
}

#[test]
fn different_roots_are_not_merged() {
    let db = analysis_store();
    let mut gen = IdGenerator::new(s("g"), 0);
    let mut first = db.template_create_calculation(&vec![(s("raw"), s("A"))], &mut gen).unwrap();
    let mut second = db.template_create_calculation(&vec![(s("raw"), s("B"))], &mut gen).unwrap();
    let mut global = Database::new();
    first.merge_into(&mut global).unwrap();
    second.merge_into(&mut global).unwrap();
    assert_eq!(global.cnodes.len(), 2);
    assert_eq!(global.dnodes.len(), 4);
}

#[test]
fn merge_into_copy_changes_nothing() {
    let db = analysis_store();
    let mut gen = IdGenerator::new(s("g"), 0);
    let mut global = db.template_create_calculation(&vec![(s("raw"), s("A"))], &mut gen).unwrap();
    let mut copy = global.copy();
    let before_c = calc_ids(&global);
    let before_d = data_ids(&global);
    copy.check_against_and_register(&mut global).unwrap();
    assert_eq!(calc_ids(&global), before_c);
    assert_eq!(data_ids(&global), before_d);
    assert_eq!(calc_ids(&copy), before_c);
    assert_eq!(data_ids(&copy), before_d);
    assert_eq!(global.template.cnodes.len(), 1);
}

#[test]
fn merge_rejects_template_mismatch() {
    let mut a = Database::new();
    a.template_register_cnode(s("c"), s("one"), &Vec::new()).unwrap();
    let mut b = Database::new();
    b.template_register_cnode(s("c"), s("two"), &Vec::new()).unwrap();
    b.template_register_dnode(s("d"));
    match b.check_against_and_register(&mut a) {
        Err(GraphError::TemplateMismatch(k)) => assert_eq!(k, "c"),
        _ => panic!("expected a template mismatch"),
    }
    assert_eq!(a.template.dnodes.len(), 0);
}

#[test]
fn merge_adopts_new_templates() {
    let mut a = Database::new();
    a.template_register_dnode(s("x"));
    let b = analysis_store();
    let mut gen = IdGenerator::new(s("g"), 0);
    let mut inst = b.template_create_calculation(&vec![(s("raw"), s("A"))], &mut gen).unwrap();
    inst.merge_into(&mut a).unwrap();
    let names: Vec<String> = a.template.dnodes.iter().map(|d| d.id.clone()).collect();
    assert_eq!(names, vec![s("x"), s("raw"), s("result")]);
    assert_eq!(a.template.cnodes.len(), 1);
}

fn chain_store() -> Database {
    // raw -> c1 -> mid -> c2 -> out, plus an unrelated raw2 -> c3 -> out2.
    let mut db = Database::new();
    for d in ["raw", "mid", "out"] {
        db.template_register_dnode(s(d));
    }
    db.template_register_cnode(s("step1"), s("a input(raw) output(mid)"), &Vec::new()).unwrap();
    db.template_register_cnode(s("step2"), s("b input(mid) output(out)"), &Vec::new()).unwrap();
    let mut gen = IdGenerator::new(s("k"), 0);
    let mut one = db.template_create_calculation(&vec![(s("raw"), s("R1"))], &mut gen).unwrap();
    let mut two = db.template_create_calculation(&vec![(s("raw"), s("R2"))], &mut gen).unwrap();
    let mut global = Database::new();
    one.merge_into(&mut global).unwrap();
    two.merge_into(&mut global).unwrap();
    global
}

#[test]
fn history_and_future_selection() {
    let global = chain_store();
    // First instantiation: data R1, k1 (mid), k2 (out); calcs k3 (step1), k4 (step2).
    assert_eq!(calc_ids(&global), vec![s("k3"), s("k4"), s("k8"), s("k9")]);
    let h = global.select_history(s("k2")).unwrap();
    assert_eq!(calc_ids(&h), vec![s("k3"), s("k4")]);
    assert_eq!(data_ids(&h), vec![s("R1"), s("k1"), s("k2")]);
    let f = global.select_future(s("k1")).unwrap();
    assert_eq!(calc_ids(&f), vec![s("k4")]);
    assert_eq!(data_ids(&f), vec![s("k1"), s("k2")]);
    for c in calc_ids(&h) {
        let fut = global.select_future(c.clone()).unwrap();
        assert!(data_ids(&fut).contains(&s("k2")), "{} should lead to k2", c);
    }
    let hc = global.select_history(s("k4")).unwrap();
    assert_eq!(calc_ids(&hc), vec![s("k3"), s("k4")]);
    assert!(matches!(global.select_history(s("missing")), Err(GraphError::NotFound(_))));
    assert!(matches!(global.select_future(s("missing")), Err(GraphError::NotFound(_))));
}

#[test]
fn branch_selection() {
    let global = chain_store();
    let b = global.select_branch(s("k2")).unwrap();
    assert_eq!(calc_ids(&b), vec![s("k3"), s("k4")]);
    assert_eq!(data_ids(&b), vec![s("R1"), s("k1"), s("k2")]);
    let b2 = global.select_branch(s("R2")).unwrap();
    assert_eq!(calc_ids(&b2), vec![s("k8"), s("k9")]);
    assert!(matches!(global.select_branch(s("none")), Err(GraphError::NotFound(_))));
}

#[test]
fn lookup_and_selection_by_template() {
    let global = chain_store();
    match global.get(s("k3")) {
        Some(Node::Calculation(c)) => assert_eq!(c.template, "step1"),
        _ => panic!("expected a calculation"),
    }
    match global.get(s("R1")) {
        Some(Node::Data(d)) => assert_eq!(d.template, "raw"),
        _ => panic!("expected data"),
    }
    assert!(global.get(s("zzz")).is_none());
    let mids = global.select_similar(s("mid"));
    let ids: Vec<String> = mids.iter().map(|n| n.id()).collect();
    assert_eq!(ids, vec![s("k1"), s("k6")]);
    let calcs = global.select_similar(s("step2"));
    assert_eq!(calcs.len(), 2);
    assert_eq!(calcs[0].outcoming(), vec![s("k2")]);
}

#[test]
fn register_data_instances() {
    let mut db = analysis_store();
    let mut gen = IdGenerator::new(s("m"), 7);
    let d = db.register_dnode(s("raw"), Some(s("file1")), &mut gen).unwrap();
    assert_eq!(d.id, "file1");
    let g = db.register_dnode(s("raw"), None, &mut gen).unwrap();
    assert_eq!(g.id, "m7");
    assert_eq!(gen.next, 8);
    assert!(matches!(db.register_dnode(s("nope"), None, &mut gen), Err(GraphError::NotFound(_))));
    assert!(matches!(db.register_dnode(s("raw"), Some(s("file1")), &mut gen), Err(GraphError::DuplicateId(_))));
    assert_eq!(data_ids(&db), vec![s("file1"), s("m7")]);
}

#[test]
fn root_templates() {
    let db = analysis_store();
    assert_eq!(db.template.find_root_nodes(), vec![s("raw")]);
    let mut t = graphrlib::store::DatabaseTemplate::new();
    t.register_cnode(s("gen"), s("make output(o)")).unwrap();
    t.register_dnode(s("o"));
    t.register_dnode(s("free"));
    assert_eq!(t.find_root_nodes(), vec![s("gen"), s("free")]);
}

#[test]
fn empty_copy_and_node_listing() {
    let global = chain_store();
    let empty = global.generate_empty();
    assert!(empty.cnodes.is_empty() && empty.dnodes.is_empty());
    assert_eq!(empty.template.cnodes.len(), 2);
    let nodes = global.to_nodes();
    assert_eq!(nodes.len(), global.cnodes.len() + global.dnodes.len());
    assert_eq!(nodes[0].id(), "k3");
    assert!(matches!(nodes[nodes.len() - 1], Node::Data(_)));
    assert!(global.is_well_formed());
    assert!(global.view_fits());
}

#[test]
fn selected_positions() {
    let global = chain_store();
    let (kc, kd) = global.select_node_history(s("k1")).unwrap();
    assert_eq!(kc, vec![true, false, false, false]);
    assert_eq!(kd, vec![true, true, false, false, false, false]);
    let (fc, fd) = global.select_node_future(s("k1")).unwrap();
    assert_eq!(fc, vec![false, true, false, false]);
    assert_eq!(fd, vec![false, true, true, false, false, false]);
    let sub = global.digraph_to_database(&fc, &fd);
    assert_eq!(calc_ids(&sub), vec![s("k4")]);
}

#[test]
fn ill_formed_store_is_detected() {
    let mut db = chain_store();
    db.cnodes[0].incoming.push(s("ghost"));
    assert!(!db.is_well_formed());
    let mut dup = chain_store();
    let extra = dup.dnodes[0].id.clone();
    dup.dnodes.push(graphrlib::model::DNode { id: extra, template: s("raw") });
    assert!(!dup.is_well_formed());
}

#[test]
fn template_lookup() {
    let db = analysis_store();
    match db.template.get(s("analysis")) {
        Some(graphrlib::model::NodeTemplate::Calculation(c)) => assert_eq!(c.incoming, vec![s("raw")]),
        _ => panic!("expected a calculation template"),
    }
    assert!(matches!(db.template.get(s("raw")), Some(graphrlib::model::NodeTemplate::Data(_))));
    assert!(db.template.get(s("none")).is_none());
}

#[test]
fn merging_empty_stores() {
    let mut a = Database::new();
    let mut b = Database::new();
    b.merge_into(&mut a).unwrap();
    assert!(a.cnodes.is_empty() && a.dnodes.is_empty());
    assert!(a.template.cnodes.is_empty() && a.template.dnodes.is_empty());
}

#[test]
fn check_against_renames_without_registering() {
    let db = analysis_store();
    let leafs = vec![(s("raw"), s("sample_A"))];
    let mut gen = IdGenerator::new(s("g"), 0);
    let global = db.template_create_calculation(&leafs, &mut gen).unwrap();
    let mut incoming = db.template_create_calculation(&leafs, &mut gen).unwrap();
    incoming.check_against(&global).unwrap();
    assert_eq!(calc_ids(&incoming), calc_ids(&global));
    assert_eq!(data_ids(&incoming), data_ids(&global));
    assert_eq!(global.cnodes.len(), 1);
}

#[test]
fn empty_command_and_no_templates() {
    let mut db = Database::new();
    let c = db.template_register_cnode(s("noop"), s(""), &Vec::new()).unwrap();
    assert_eq!(c.command, "");
    let mut gen = IdGenerator::new(s("e"), 0);
    // A calculation template without inputs is itself a root and needs a binding.
    match db.template_create_calculation(&Vec::new(), &mut gen) {
        Err(GraphError::MissingRootBinding(v)) => assert_eq!(v, vec![s("noop")]),
        _ => panic!("expected a missing root binding"),
    }
    let inst = db.template_create_calculation(&vec![(s("noop"), s("x"))], &mut gen).unwrap();
    assert_eq!(calc_ids(&inst), vec![s("e0")]);
    assert_eq!(inst.get_command(s("e0"), s("d")).unwrap(), "");
}

#[test]
fn many_positions_are_substituted_once() {
    let mut db = Database::new();
    let mut command = s("run");
    for i in 0..11 {
        let name = format!("d{}", i);
        db.template_register_dnode(name.clone());
        command.push_str(&format!(" input({})", name));
    }
    db.template_register_dnode(s("res"));
    command.push_str(" output(res)");
    db.template_register_cnode(s("wide"), command, &Vec::new()).unwrap();
    let leafs: Vec<(String, String)> = (0..11).map(|i| (format!("d{}", i), format!("f{}", i))).collect();
    let mut gen = IdGenerator::new(s("w"), 0);
    let inst = db.template_create_calculation(&leafs, &mut gen).unwrap();
    let cid = inst.cnodes[0].id.clone();
    let out_id = inst.cnodes[0].outcoming[0].clone();
    let cmd = inst.get_command(cid, s("p")).unwrap();
    let mut expected = s("run");
    for i in 0..11 {
        expected.push_str(&format!(" p/f{}", i));
    }
    expected.push_str(&format!(" p/{}", out_id));
    assert_eq!(cmd, expected);
}

#[test]
fn substituted_text_is_not_rescanned() {
    let mut db = Database::new();
    db.template_register_dnode(s("a"));
    db.template_register_dnode(s("b"));
    let extra = vec![(s("k"), ExtraData::String(s("v")))];
    db.template_register_cnode(s("c"), s("x input(a) output(b) extra(k)"), &extra).unwrap();
    let mut gen = IdGenerator::new(s("z"), 0);
    let inst = db.template_create_calculation(&vec![(s("a"), s("$o_0extra(k)"))], &mut gen).unwrap();
    assert_eq!(inst.get_command(s("z2"), s("r")).unwrap(), "x r/$o_0extra(k) r/z1 v");
}

#[test]
fn out_of_range_placeholder_stays() {
    let mut db = Database::new();
    db.template_register_dnode(s("a"));
    db.template_register_cnode(s("c"), s("y input(a) $i_1 $i_0x"), &Vec::new()).unwrap();
    let mut gen = IdGenerator::new(s("q"), 0);
    let inst = db.template_create_calculation(&vec![(s("a"), s("A"))], &mut gen).unwrap();
    assert_eq!(inst.get_command(s("q1"), s("r")).unwrap(), "y r/A $i_1 r/Ax");
}

#[test]
fn graph_view_has_one_edge_per_reference() {
    let global = chain_store();
    let v = global.generate_digraph(false).unwrap();
    assert_eq!(v.graph.edge_count(), 8);
    assert_eq!(v.labels.len(), 10);
    let u = global.generate_digraph(true).unwrap();
    assert_eq!(u.graph.edge_count(), 16);
    let mut broken = chain_store();
    broken.cnodes[1].outcoming.push(s("nowhere"));
    match broken.generate_digraph(false) {
        Err(GraphError::ReferentialIntegrity(x)) => assert_eq!(x, "nowhere"),
        _ => panic!("expected a referential integrity error"),
    }
    assert_eq!(broken.first_dangling_ref(), Some(s("nowhere")));
}

#[test]
fn calculation_and_data_ids_stay_apart() {
    let mut db = analysis_store();
    let mut gen = IdGenerator::new(s("g"), 0);
    // The calculation of this instantiation gets id g2, which the binding also names.
    match db.template_create_calculation(&vec![(s("raw"), s("g2"))], &mut gen) {
        Err(GraphError::DuplicateId(x)) => assert_eq!(x, "g2"),
        _ => panic!("expected a duplicate identifier"),
    }
    let mut inst = db.template_create_calculation(&vec![(s("raw"), s("A"))], &mut gen).unwrap();
    let cid = inst.cnodes[0].id.clone();
    assert!(matches!(inst.register_dnode(s("raw"), Some(cid.clone()), &mut gen), Err(GraphError::DuplicateId(_))));
    let mut other = Database::new();
    other.template_register_dnode(s("raw"));
    other.register_dnode(s("raw"), Some(cid), &mut gen).unwrap();
    assert!(!inst.kinds_apart_from(&other));
    assert!(inst.kinds_apart_from(&Database::new()));
    inst.merge_into(&mut db).unwrap();
}

#[test]
fn first_mismatching_template_is_named() {
    let mut a = Database::new();
    a.template_register_cnode(s("p"), s("one"), &Vec::new()).unwrap();
    a.template_register_cnode(s("q"), s("one"), &Vec::new()).unwrap();
    let mut b = Database::new();
    b.template_register_cnode(s("q"), s("two"), &Vec::new()).unwrap();
    b.template_register_cnode(s("p"), s("two"), &Vec::new()).unwrap();
    match b.check_against(&a) {
        Err(GraphError::TemplateMismatch(k)) => assert_eq!(k, "q"),
        _ => panic!("expected a template mismatch"),
    }
}

#[test]
fn root_data_are_never_renamed() {
    let db = analysis_store();
    let mut gen = IdGenerator::new(s("g"), 0);
    let global = db.template_create_calculation(&vec![(s("raw"), s("S"))], &mut gen).unwrap();
    let mut other = db.template_create_calculation(&vec![(s("raw"), s("T"))], &mut gen).unwrap();
    let before = data_ids(&other);
    other.check_against(&global).unwrap();
    assert_eq!(data_ids(&other)[0], before[0]);
    assert_eq!(other.cnodes[0].incoming, vec![s("T")]);
}
