use graphrlib::tagstore::{CalculationManager, CalculationNode, CopyManager, DataNode, JsonStorage};

fn s(x: &str) -> String {
    x.to_string()
}

fn cm() -> CopyManager {
    CopyManager { name: s(""), origin: s("") }
}

fn calc(tags: &[&str]) -> CalculationNode {
    CalculationNode {
        git_hash: s(""),
        tags: tags.iter().map(|t| s(t)).collect(),
        calculation: CalculationManager { inputs: vec![], outputs: vec![], program: s("p") },
        copy: cm(),
    }
}

fn data(tags: &[&str]) -> DataNode {
    DataNode { save: false, tags: tags.iter().map(|t| s(t)).collect(), copy: cm() }
}

fn store() -> JsonStorage {
    JsonStorage {
        calculation_nodes: vec![(s("123calc"), calc(&["x"])), (s("456other"), calc(&[]))],
        data_nodes: vec![(s("123data"), data(&["x", "y"])), (s("789file"), data(&["y"]))],
    }
}

fn names(st: &JsonStorage) -> (Vec<String>, Vec<String>) {
    (
        st.calculation_nodes.iter().map(|e| e.0.clone()).collect(),
        st.data_nodes.iter().map(|e| e.0.clone()).collect(),
    )
}

#[test]
fn full_program_replaces_paths() {
    let m = CalculationManager {
        inputs: vec![s("in.txt")],
        outputs: vec![s("out.txt")],
        program: s("python3 $input_0 $output_0"),
    };
    assert_eq!(m.get_full_program("data"), "python3 data/in.txt data/out.txt");
}

#[test]
fn similar_nodes_by_substring() {
    let st = store();
    assert_eq!(st.get_similar_nodes(&s("123")), vec![s("123calc"), s("123data")]);
    assert_eq!(st.get_similar_nodes(&s("other")), vec![s("456other")]);
    assert!(st.get_similar_nodes(&s("zzz")).is_empty());
}

#[test]
fn add_set_remove_tags() {
    let mut st = store();
    st.add_tags(&vec![s("x"), s("z")]).unwrap();
    assert_eq!(st.calculation_nodes[0].1.tags, vec![s("x"), s("z")]);
    assert_eq!(st.data_nodes[0].1.tags, vec![s("x"), s("y"), s("z")]);
    st.remove_tags(&vec![s("x")]).unwrap();
    assert_eq!(st.calculation_nodes[0].1.tags, vec![s("z")]);
    assert_eq!(st.data_nodes[1].1.tags, vec![s("y"), s("z")]);
    st.set_tags(&vec![s("only")]).unwrap();
    assert_eq!(st.calculation_nodes[1].1.tags, vec![s("only")]);
    assert_eq!(st.data_nodes[0].1.tags, vec![s("only")]);
}

#[test]
fn filter_by_tags_includes_and_excludes() {
    let st = store();
    let f = st.filter_by_tags(&vec![s("x")], &vec![s("y")]);
    assert_eq!(names(&f), (vec![s("123calc")], vec![]));
    let g = st.filter_by_tags(&vec![s("y")], &vec![]);
    assert_eq!(names(&g), (vec![], vec![s("123data"), s("789file")]));
}

#[test]
fn select_by_name_and_delete() {
    let mut st = store();
    let sel = st.select_by_name(&vec![s("789file"), s("123calc"), s("nope"), s("123calc")]);
    assert_eq!(names(&sel), (vec![s("123calc")], vec![s("789file")]));
    st.delete(&vec![s("123calc"), s("789file")]);
    assert_eq!(names(&st), (vec![s("456other")], vec![s("123data")]));
}

#[test]
fn add_database_overwrites() {
    let mut st = store();
    let other = JsonStorage {
        calculation_nodes: vec![(s("123calc"), calc(&["new"])), (s("999"), calc(&[]))],
        data_nodes: vec![],
    };
    st.add_database(&other);
    assert_eq!(names(&st).0, vec![s("123calc"), s("456other"), s("999")]);
    assert_eq!(st.calculation_nodes[0].1.tags, vec![s("new")]);
    let empty = JsonStorage::new();
    assert!(empty.calculation_nodes.is_empty());
}

#[test]
fn full_program_path_forms() {
    let m = CalculationManager {
        inputs: vec![s("/abs/in"), s("rel")],
        outputs: vec![],
        program: s("run $input_0 $input_1"),
    };
    assert_eq!(m.get_full_program("base/"), "run /abs/in base/rel");
    assert_eq!(m.get_full_program(""), "run /abs/in rel");
}

#[test]
fn full_program_replaces_outputs_before_inputs() {
    let m = CalculationManager {
        inputs: vec![s("a"), s("b")],
        outputs: vec![s("o")],
        program: s("x $input_1 $output_0 $input_0 $input_0"),
    };
    assert_eq!(m.get_full_program("d"), "x d/b d/o d/a d/a");
}
