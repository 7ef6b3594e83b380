use qasm_rs::ir::{CircuitDAG, Modifier, Param};

#[test]
fn empty_circuit() {
    let mut dag = CircuitDAG::new(2, 0);
    dag.finalize();
    assert_eq!(dag.gate_count(), 0);
    assert_eq!(dag.depth(), 0);
    assert_eq!(dag.num_qubits, 2);
}

#[test]
fn single_gate() {
    let mut dag = CircuitDAG::new(1, 0);
    dag.append_gate("h".into(), vec![], vec![], vec![0]);
    dag.finalize();
    assert_eq!(dag.gate_count(), 1);
    assert_eq!(dag.depth(), 1);
}

#[test]
fn two_gates_same_wire() {
    let mut dag = CircuitDAG::new(1, 0);
    let g1 = dag.append_gate("h".into(), vec![], vec![], vec![0]);
    let g2 = dag.append_gate("x".into(), vec![], vec![], vec![0]);
    dag.finalize();

    assert_eq!(dag.gate_count(), 2);
    assert_eq!(dag.depth(), 2);
    assert_eq!(dag.wire_successor(g1, 0), Some(g2));
    assert_eq!(dag.wire_predecessor(g2, 0), Some(g1));
}

#[test]
fn parallel_gates() {
    let mut dag = CircuitDAG::new(2, 0);
    dag.append_gate("h".into(), vec![], vec![], vec![0]);
    dag.append_gate("x".into(), vec![], vec![], vec![1]);
    dag.finalize();

    assert_eq!(dag.gate_count(), 2);
    assert_eq!(dag.depth(), 1);
}

#[test]
fn cx_gate() {
    let mut dag = CircuitDAG::new(2, 0);
    dag.append_gate("h".into(), vec![], vec![], vec![0]);
    dag.append_gate("cx".into(), vec![], vec![], vec![0, 1]);
    dag.finalize();

    assert_eq!(dag.gate_count(), 2);
    assert_eq!(dag.depth(), 2);
}

#[test]
fn remove_node_rewires() {
    let mut dag = CircuitDAG::new(1, 0);
    let g1 = dag.append_gate("h".into(), vec![], vec![], vec![0]);
    let g2 = dag.append_gate("x".into(), vec![], vec![], vec![0]);
    let g3 = dag.append_gate("h".into(), vec![], vec![], vec![0]);
    dag.finalize();

    dag.remove_node(g2);
    assert_eq!(dag.gate_count(), 2);
    assert_eq!(dag.wire_successor(g1, 0), Some(g3));
    assert_eq!(dag.wire_predecessor(g3, 0), Some(g1));
}

#[test]
fn topo_order_respects_dependencies() {
    let mut dag = CircuitDAG::new(2, 0);
    let h = dag.append_gate("h".into(), vec![], vec![], vec![0]);
    let cx = dag.append_gate("cx".into(), vec![], vec![], vec![0, 1]);
    dag.finalize();

    let order = dag.gates_topo();
    let h_pos = order.iter().position(|&id| id == h).unwrap();
    let cx_pos = order.iter().position(|&id| id == cx).unwrap();
    assert!(h_pos < cx_pos, "h must come before cx");
}

#[test]
fn counts_and_boundaries() {
    let mut dag = CircuitDAG::new(2, 1);
    dag.append_gate("h".into(), vec![], vec![], vec![0]);
    dag.append_measure(0, Some(0));
    dag.append_reset(1);
    dag.append_barrier(vec![0, 1]);
    dag.finalize();
    assert_eq!(dag.gate_count(), 1);
    assert_eq!(dag.op_count(), 4);
    assert_eq!(dag.node_count(), 8);
    assert_eq!(dag.qubit_count(), 2);
    assert_eq!(dag.bit_count(), 1);
}

#[test]
fn removing_the_only_gate_joins_the_boundaries() {
    let mut dag = CircuitDAG::new(1, 0);
    let g = dag.append_gate("x".into(), vec![], vec![], vec![0]);
    dag.finalize();
    let input = dag.input_node(0);
    dag.remove_node(g);
    assert_eq!(dag.gate_count(), 0);
    assert_eq!(dag.depth(), 0);
    let out = dag.wire_successor(input, 0).unwrap();
    assert_eq!(dag.wire_predecessor(out, 0), Some(input));
}

#[test]
fn summary_lists_operations_in_dependency_order() {
    let mut dag = CircuitDAG::new(2, 1);
    dag.append_gate("h".into(), vec![], vec![], vec![0]);
    dag.append_gate(
        "rz".into(),
        vec![Modifier::Ctrl(Some(1))],
        vec![Param::Pi],
        vec![0, 1],
    );
    dag.append_measure(1, Some(0));
    dag.append_reset(0);
    dag.finalize();
    assert_eq!(
        dag.summary(),
        "CircuitDAG(2 qubits, 4 ops, depth 2)\n  [4] h w0\n  [5] ctrl @ rz(pi) w0, w1\n  [6] measure w1 -> b0\n  [7] reset w0\n"
    );
}
