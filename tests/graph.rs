use dbe_core::{
    EDataType, EListId, ENumber, ETypesRegistry, EValue, GraphError, GraphExecutionContext, GraphNode, InPinId, ListNode,
    NodeId, OutPinId,
};

fn num(x: f64) -> EValue {
    EValue::Number { value: ENumber { bits: x.to_bits() } }
}

fn out(node: NodeId) -> OutPinId {
    OutPinId { node, output: 0 }
}

fn inp(node: NodeId, input: usize) -> InPinId {
    InPinId { node, input }
}

fn reroute(g: &mut GraphExecutionContext) -> NodeId {
    g.add_node(GraphNode::Reroute { ty: EDataType::Number })
}

/// A→B→C of reroute nodes, with an inline value on A's input.
fn chain(reg: &mut ETypesRegistry) -> (GraphExecutionContext, NodeId, NodeId, NodeId) {
    let mut g = GraphExecutionContext::new();
    let a = reroute(&mut g);
    let b = reroute(&mut g);
    let c = reroute(&mut g);
    g.set_inline_value(inp(a, 0), num(3.0)).unwrap();
    assert!(g.connect(reg, out(a), inp(b, 0)).unwrap());
    assert!(g.connect(reg, out(b), inp(c, 0)).unwrap());
    (g, a, b, c)
}

#[test]
fn pull_evaluates_upstream_nodes() {
    let mut reg = ETypesRegistry::new();
    let (mut g, a, b, c) = chain(&mut reg);
    assert_eq!(g.read_output(&mut reg, out(c)).unwrap(), num(3.0));
    assert_eq!(g.executions_count(), 3);
    assert!(g.is_cached(a) && g.is_cached(b) && g.is_cached(c));
}

#[test]
fn second_read_is_memoized() {
    let mut reg = ETypesRegistry::new();
    let (mut g, _, _, c) = chain(&mut reg);
    let first = g.read_output(&mut reg, out(c)).unwrap();
    let count = g.executions_count();
    let second = g.read_output(&mut reg, out(c)).unwrap();
    assert_eq!(first, second);
    assert_eq!(g.executions_count(), count);
}

#[test]
fn dirty_source_invalidates_downstream() {
    let mut reg = ETypesRegistry::new();
    let (mut g, a, b, c) = chain(&mut reg);
    g.read_output(&mut reg, out(c)).unwrap();
    g.mark_dirty(a);
    assert!(!g.is_cached(a) && !g.is_cached(b) && !g.is_cached(c));
    g.read_output(&mut reg, out(c)).unwrap();
    assert_eq!(g.executions_count(), 6);
}

#[test]
fn dirty_middle_keeps_upstream() {
    let mut reg = ETypesRegistry::new();
    let (mut g, a, b, c) = chain(&mut reg);
    g.read_output(&mut reg, out(c)).unwrap();
    g.mark_dirty(b);
    assert!(g.is_cached(a));
    assert!(!g.is_cached(b) && !g.is_cached(c));
    g.read_output(&mut reg, out(c)).unwrap();
    assert_eq!(g.executions_count(), 5);
}

#[test]
fn inline_value_change_marks_dirty() {
    let mut reg = ETypesRegistry::new();
    let (mut g, a, _, c) = chain(&mut reg);
    g.read_output(&mut reg, out(c)).unwrap();
    g.set_inline_value(inp(a, 0), num(5.0)).unwrap();
    assert!(!g.is_cached(c));
    assert_eq!(g.read_output(&mut reg, out(c)).unwrap(), num(5.0));
}

#[test]
fn two_node_cycle_is_detected() {
    let mut reg = ETypesRegistry::new();
    let mut g = GraphExecutionContext::new();
    let x = reroute(&mut g);
    let y = reroute(&mut g);
    assert!(g.connect_raw(out(x), inp(y, 0)).unwrap());
    assert!(g.connect_raw(out(y), inp(x, 0)).unwrap());
    assert!(matches!(g.read_output(&mut reg, out(x)), Err(GraphError::CyclicDependency(n)) if n == x));
    assert!(matches!(g.read_output(&mut reg, out(y)), Err(GraphError::CyclicDependency(n)) if n == y));
    assert!(!g.is_cached(x) && !g.is_cached(y));
}

#[test]
fn fan_in_fails_to_read() {
    let mut reg = ETypesRegistry::new();
    let mut g = GraphExecutionContext::new();
    let a = reroute(&mut g);
    let b = reroute(&mut g);
    let z = reroute(&mut g);
    g.connect_raw(out(a), inp(z, 0)).unwrap();
    g.connect_raw(out(b), inp(z, 0)).unwrap();
    assert!(matches!(g.read_input(&mut reg, inp(z, 0)), Err(GraphError::MultipleSources(p)) if p == inp(z, 0)));
    assert!(matches!(g.read_output(&mut reg, out(z)), Err(GraphError::MultipleSources(_))));
}

#[test]
fn checked_connect_replaces_the_source() {
    let mut reg = ETypesRegistry::new();
    let mut g = GraphExecutionContext::new();
    let a = reroute(&mut g);
    let b = reroute(&mut g);
    let z = reroute(&mut g);
    g.set_inline_value(inp(a, 0), num(1.0)).unwrap();
    g.set_inline_value(inp(b, 0), num(2.0)).unwrap();
    assert!(g.connect(&mut reg, out(a), inp(z, 0)).unwrap());
    assert!(g.connect(&mut reg, out(b), inp(z, 0)).unwrap());
    assert_eq!(g.read_input(&mut reg, inp(z, 0)).unwrap(), num(2.0));
}

#[test]
fn connect_rejects_incompatible_types() {
    let mut reg = ETypesRegistry::new();
    let mut g = GraphExecutionContext::new();
    let a = reroute(&mut g);
    let s = g.add_node(GraphNode::Reroute { ty: EDataType::String });
    assert!(!g.connect(&mut reg, out(a), inp(s, 0)).unwrap());
    assert!(g.read_input(&mut reg, inp(s, 0)).is_ok());
}

#[test]
fn unconnected_input_reads_default() {
    let mut reg = ETypesRegistry::new();
    let mut g = GraphExecutionContext::new();
    let a = reroute(&mut g);
    assert_eq!(g.read_input(&mut reg, inp(a, 0)).unwrap(), num(0.0));
}

#[test]
fn graph_errors_name_the_node_and_port() {
    let mut reg = ETypesRegistry::new();
    let mut g = GraphExecutionContext::new();
    let a = reroute(&mut g);
    assert!(matches!(g.read_output(&mut reg, out(NodeId(99))), Err(GraphError::UnknownNode(NodeId(99)))));
    assert!(matches!(
        g.read_input(&mut reg, inp(a, 4)),
        Err(GraphError::InputOutOfBounds { node, index: 4, count: 1 }) if node == a
    ));
    assert!(matches!(
        g.read_output(&mut reg, OutPinId { node: a, output: 2 }),
        Err(GraphError::OutputOutOfBounds { index: 2, count: 1, .. })
    ));
    assert!(matches!(g.connect_raw(out(a), inp(NodeId(42), 0)), Err(GraphError::UnknownNode(NodeId(42)))));
}

#[test]
fn list_node_collects_its_inputs() {
    let mut reg = ETypesRegistry::new();
    let mut g = GraphExecutionContext::new();
    let a = reroute(&mut g);
    let b = reroute(&mut g);
    g.set_inline_value(inp(a, 0), num(1.0)).unwrap();
    g.set_inline_value(inp(b, 0), num(2.0)).unwrap();
    let list = g.add_node(GraphNode::List(ListNode::new()));
    assert!(g.connect(&mut reg, out(a), inp(list, 0)).unwrap());
    assert!(g.connect(&mut reg, out(b), inp(list, 1)).unwrap());
    let v = g.read_output(&mut reg, out(list)).unwrap();
    assert_eq!(v, EValue::List { id: EListId(0), values: vec![num(1.0), num(2.0)] });
    assert!(matches!(reg.get_list(EListId(0)), Ok(EDataType::Number)));
}

#[test]
fn fixed_list_node_checks_item_type() {
    let mut reg = ETypesRegistry::new();
    let mut g = GraphExecutionContext::new();
    let s = g.add_node(GraphNode::Reroute { ty: EDataType::String });
    let a = reroute(&mut g);
    let list = g.add_node(GraphNode::List(ListNode::of_type(EDataType::Number)));
    assert!(g.connect(&mut reg, out(a), inp(list, 0)).unwrap());
    assert!(!g.connect(&mut reg, out(s), inp(list, 1)).unwrap());
    assert_eq!(
        g.read_output(&mut reg, out(list)).unwrap(),
        EValue::List { id: EListId(0), values: vec![num(0.0)] }
    );
}

#[test]
fn full_eval_runs_side_effect_nodes_once() {
    let mut reg = ETypesRegistry::new();
    let mut g = GraphExecutionContext::new();
    let a = reroute(&mut g);
    let sink = g.add_node(GraphNode::Saving { ty: EDataType::Number });
    assert!(g.connect(&mut reg, out(a), inp(sink, 0)).unwrap());
    g.full_eval(&mut reg).unwrap();
    assert!(g.is_cached(sink) && g.is_cached(a));
    assert_eq!(g.executions_count(), 2);
    g.full_eval(&mut reg).unwrap();
    assert_eq!(g.executions_count(), 2);
}

#[test]
fn disconnect_returns_input_to_default() {
    let mut reg = ETypesRegistry::new();
    let (mut g, a, b, _) = chain(&mut reg);
    assert_eq!(g.read_input(&mut reg, inp(b, 0)).unwrap(), num(3.0));
    assert!(g.disconnect(out(a), inp(b, 0)).unwrap());
    assert_eq!(g.read_input(&mut reg, inp(b, 0)).unwrap(), num(0.0));
    assert!(!g.disconnect(out(a), inp(b, 0)).unwrap());
}

#[test]
fn disconnecting_a_list_item_moves_the_rest_up() {
    let mut reg = ETypesRegistry::new();
    let mut g = GraphExecutionContext::new();
    let a = reroute(&mut g);
    let b = reroute(&mut g);
    g.set_inline_value(inp(a, 0), num(1.0)).unwrap();
    g.set_inline_value(inp(b, 0), num(2.0)).unwrap();
    let list = g.add_node(GraphNode::List(ListNode::new()));
    assert!(g.connect(&mut reg, out(a), inp(list, 0)).unwrap());
    assert!(g.connect(&mut reg, out(b), inp(list, 1)).unwrap());
    assert!(g.disconnect(out(a), inp(list, 0)).unwrap());
    assert_eq!(g.read_output(&mut reg, out(list)).unwrap(), EValue::List { id: EListId(0), values: vec![num(2.0)] });
    assert_eq!(g.read_input(&mut reg, inp(list, 1)).unwrap(), num(0.0));
}

#[test]
fn retyped_list_drops_incompatible_outgoing_wires() {
    let mut reg = ETypesRegistry::new();
    let numbers = reg.list_of(&EDataType::Number);
    let mut g = GraphExecutionContext::new();
    let a = reroute(&mut g);
    let s = g.add_node(GraphNode::Reroute { ty: EDataType::String });
    let list = g.add_node(GraphNode::List(ListNode::new()));
    let sink = g.add_node(GraphNode::Reroute { ty: EDataType::List { id: numbers } });
    assert!(g.connect(&mut reg, out(a), inp(list, 0)).unwrap());
    assert!(g.connect(&mut reg, out(list), inp(sink, 0)).unwrap());
    assert_eq!(g.read_input(&mut reg, inp(sink, 0)).unwrap(), EValue::List { id: numbers, values: vec![num(0.0)] });
    assert!(g.disconnect(out(a), inp(list, 0)).unwrap());
    assert!(g.connect(&mut reg, out(s), inp(list, 0)).unwrap());
    assert_eq!(g.read_input(&mut reg, inp(sink, 0)).unwrap(), EValue::List { id: numbers, values: vec![] });
    assert!(!g.disconnect(out(list), inp(sink, 0)).unwrap());
}

#[test]
fn second_full_eval_executes_nothing() {
    let mut reg = ETypesRegistry::new();
    let mut g = GraphExecutionContext::new();
    let a = reroute(&mut g);
    let sink = g.add_node(GraphNode::Saving { ty: EDataType::Number });
    assert!(g.connect(&mut reg, out(a), inp(sink, 0)).unwrap());
    g.full_eval(&reg).unwrap();
    let count = g.executions_count();
    assert!(g.full_eval(&reg).is_ok());
    assert_eq!(g.executions_count(), count);
}

#[test]
fn cycle_through_side_effect_node_fails_full_eval() {
    let reg = ETypesRegistry::new();
    let mut g = GraphExecutionContext::new();
    let x = g.add_node(GraphNode::Saving { ty: EDataType::Number });
    let y = reroute(&mut g);
    g.connect_raw(out(y), inp(x, 0)).unwrap();
    g.connect_raw(OutPinId { node: x, output: 0 }, inp(y, 0)).unwrap();
    assert!(matches!(g.full_eval(&reg), Err(GraphError::CyclicDependency(n)) if n == x));
}

#[test]
fn reading_input_on_cycle_names_the_other_node() {
    let reg = ETypesRegistry::new();
    let mut g = GraphExecutionContext::new();
    let x = reroute(&mut g);
    let y = reroute(&mut g);
    g.connect_raw(out(x), inp(y, 0)).unwrap();
    g.connect_raw(out(y), inp(x, 0)).unwrap();
    assert!(matches!(g.read_input(&reg, inp(x, 0)), Err(GraphError::CyclicDependency(n)) if n == y));
}

#[test]
fn unconnected_list_node_needs_its_list_type() {
    let mut reg = ETypesRegistry::new();
    let mut g = GraphExecutionContext::new();
    let list = g.add_node(GraphNode::List(ListNode::of_type(EDataType::Number)));
    assert!(matches!(g.read_output(&reg, out(list)), Err(GraphError::UnregisteredList(n)) if n == list));
    assert!(!g.is_cached(list));
    reg.list_of(&EDataType::Number);
    assert_eq!(g.read_output(&reg, out(list)).unwrap(), EValue::List { id: EListId(0), values: vec![] });
}

#[test]
fn connect_checks_port_ranges() {
    let mut reg = ETypesRegistry::new();
    let mut g = GraphExecutionContext::new();
    let a = reroute(&mut g);
    let b = reroute(&mut g);
    assert!(matches!(
        g.connect(&mut reg, OutPinId { node: a, output: 3 }, inp(b, 0)),
        Err(GraphError::OutputOutOfBounds { index: 3, count: 1, .. })
    ));
    assert!(matches!(g.connect(&mut reg, out(a), inp(b, 5)), Err(GraphError::InputOutOfBounds { index: 5, count: 1, .. })));
}
