use graphrlib::command::parse_command;
use graphrlib::store::DatabaseTemplate;

fn s(x: &str) -> String {
    x.to_string()
}

#[test]
fn parse_orders_positions_left_to_right() {
    let (cmd, ins, outs) = parse_command(&s("run input(x) output(y) input(z) output(w) input(x)"));
    assert_eq!(cmd, "run $i_0 $o_0 $i_1 $o_1 $i_2");
    assert_eq!(ins, vec![s("x"), s("z"), s("x")]);
    assert_eq!(outs, vec![s("y"), s("w")]);
}

#[test]
fn parse_leaves_malformed_tokens() {
    let (cmd, ins, outs) = parse_command(&s("echo input() output(a"));
    assert_eq!(cmd, "echo input() output(a");
    assert!(ins.is_empty());
    assert!(outs.is_empty());
}

#[test]
fn parse_many_positions() {
    let mut command = s("t");
    for i in 0..12 {
        command.push_str(&format!(" input(f{})", i));
    }
    let (cmd, ins, _) = parse_command(&command);
    assert_eq!(ins.len(), 12);
    assert!(cmd.ends_with("$i_10 $i_11"));
}

#[test]
fn create_calculation_node_does_not_register() {
    let t = DatabaseTemplate::new();
    let c = t.create_calculation_node(s("c"), s("a input(b) output(c)"));
    assert_eq!(c.command, "a $i_0 $o_0");
    assert_eq!(t.cnodes.len(), 0);
}
