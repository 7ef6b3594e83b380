use qasm_rs::ir::CircuitDAG;
use qasm_rs::lower;
use qasm_rs::opt::{cancel_inverses, decompose_hir_to_rz_sx_cx, optimize_hir};
use qasm_rs::parser::Parser;

fn lower_source(source: &str) -> CircuitDAG {
    let mut parser = Parser::new(source);
    let program = parser.parse().expect("parse failed");
    lower::lower(&program).expect("lowering failed")
}

#[test]
fn cancel_adjacent_h() {
    let mut dag = lower_source("OPENQASM 3.0; qubit q; h q; h q;");
    assert_eq!(dag.gate_count(), 2);
    let stats = cancel_inverses(&mut dag);
    assert_eq!(stats.gates_removed, 2);
    assert_eq!(dag.gate_count(), 0);
}

#[test]
fn cancel_adjacent_x() {
    let mut dag = lower_source("OPENQASM 3.0; qubit q; x q; x q;");
    let stats = cancel_inverses(&mut dag);
    assert_eq!(stats.gates_removed, 2);
    assert_eq!(dag.gate_count(), 0);
}

#[test]
fn no_cancel_different_gates() {
    let mut dag = lower_source("OPENQASM 3.0; qubit q; h q; x q;");
    let stats = cancel_inverses(&mut dag);
    assert_eq!(stats.gates_removed, 0);
    assert_eq!(dag.gate_count(), 2);
}

#[test]
fn cancel_cascading() {
    let mut dag = lower_source("OPENQASM 3.0; qubit q; h q; x q; x q; h q;");
    assert_eq!(dag.gate_count(), 4);
    let stats = cancel_inverses(&mut dag);
    assert_eq!(stats.gates_removed, 4);
    assert_eq!(dag.gate_count(), 0);
}

#[test]
fn cancel_cx_pair() {
    let mut dag = lower_source("OPENQASM 3.0; qubit[2] q; cx q[0], q[1]; cx q[0], q[1];");
    assert_eq!(dag.gate_count(), 2);
    let stats = cancel_inverses(&mut dag);
    assert_eq!(stats.gates_removed, 2);
    assert_eq!(dag.gate_count(), 0);
}

#[test]
fn no_cancel_cx_different_order() {
    let mut dag = lower_source("OPENQASM 3.0; qubit[2] q; cx q[0], q[1]; cx q[1], q[0];");
    let stats = cancel_inverses(&mut dag);
    assert_eq!(stats.gates_removed, 0);
    assert_eq!(dag.gate_count(), 2);
}

#[test]
fn cancel_preserves_other_gates() {
    let mut dag = lower_source("OPENQASM 3.0; qubit[2] q; h q[0]; x q[0]; x q[0]; cx q[0], q[1];");
    assert_eq!(dag.gate_count(), 4);
    let stats = cancel_inverses(&mut dag);
    assert_eq!(stats.gates_removed, 2);
    assert_eq!(dag.gate_count(), 2);
}

#[test]
fn cancel_s_sdg_pair() {
    let mut dag = lower_source("OPENQASM 3.0; qubit q; s q; sdg q;");
    let stats = cancel_inverses(&mut dag);
    assert_eq!(stats.gates_removed, 2);
    assert_eq!(dag.gate_count(), 0);
}

#[test]
fn does_not_cancel_repeated_phase_gates() {
    for gate in ["s", "sdg", "t", "tdg"] {
        let source = format!("OPENQASM 3.0; qubit q; {gate} q; {gate} q;");
        let mut dag = lower_source(&source);
        let stats = cancel_inverses(&mut dag);
        assert_eq!(stats.gates_removed, 0, "{gate} is not self-inverse");
        assert_eq!(dag.gate_count(), 2);
    }
}

#[test]
fn does_not_optimize_user_defined_gate_by_name() {
    let mut parser = Parser::new("OPENQASM 3.0; gate h q { x q; } qubit q; h q; h q;");
    let program = parser.parse().expect("parse failed");
    let mut hir = lower::lower_hir(&program).expect("lowering failed");
    let stats = optimize_hir(&mut hir);
    assert_eq!(stats.gates_removed, 0);
    assert_eq!(hir.gate_count(), 2);
}

#[test]
fn cancels_inverse_rotations() {
    let mut dag = lower_source("OPENQASM 3.0; qubit q; rz(pi) q; rz(-pi) q;");
    let stats = cancel_inverses(&mut dag);
    assert_eq!(stats.gates_removed, 2);
    assert_eq!(dag.gate_count(), 0);
}

#[test]
fn cancels_inverse_pair_across_commuting_gate() {
    let mut dag = lower_source("OPENQASM 3.0; qubit q; z q; s q; z q;");
    let stats = cancel_inverses(&mut dag);
    assert_eq!(stats.gates_removed, 2);
    assert_eq!(dag.gate_count(), 1);
    assert!(dag.emit_qasm().contains("s q;"));
}

#[test]
fn does_not_cancel_across_non_commuting_gate() {
    let mut dag = lower_source("OPENQASM 3.0; qubit q; z q; x q; z q;");
    let stats = cancel_inverses(&mut dag);
    assert_eq!(stats.gates_removed, 0);
    assert_eq!(dag.gate_count(), 3);
}

#[test]
fn decomposes_to_rz_sx_cx_basis() {
    let mut parser = Parser::new("OPENQASM 3.0; qubit q; h q; x q;");
    let program = parser.parse().unwrap();
    let mut hir = lower::lower_hir(&program).unwrap();
    let stats = decompose_hir_to_rz_sx_cx(&mut hir);
    assert_eq!(stats.gates_decomposed, 2);
    let qasm = hir.emit_qasm();
    assert!(!qasm.contains("\nh q;"));
    assert!(!qasm.contains("\nx q;"));
    assert_eq!(hir.gate_count(), 5);
}

#[test]
fn optimized_dag_emits_valid_qasm() {
    let mut dag = lower_source(
        "OPENQASM 3.0; qubit[2] q; bit[2] c; \
         h q[0]; x q[0]; x q[0]; cx q[0], q[1]; c = measure q;",
    );
    cancel_inverses(&mut dag);
    let qasm = dag.emit_qasm();
    assert!(qasm.lines().any(|line| line == "h q[0];"));
    assert!(qasm.lines().any(|line| line == "cx q[0], q[1];"));
    assert!(!qasm.lines().any(|line| line == "x q[0];"));
}

#[test]
fn cancellation_removes_gates_in_pairs() {
    let mut dag = lower_source("OPENQASM 3.0; qubit q; h q; h q; h q;");
    let before = dag.gate_count();
    let stats = cancel_inverses(&mut dag);
    assert_eq!(stats.gates_removed % 2, 0);
    assert_eq!(dag.gate_count() + stats.gates_removed, before);
    assert_eq!(dag.gate_count(), 1);
}

#[test]
fn decomposition_keeps_modified_and_parameterized_gates() {
    let mut parser = Parser::new("OPENQASM 3.0; qubit[2] q; ctrl @ x q[0], q[1]; rx(pi) q[0];");
    let program = parser.parse().unwrap();
    let mut hir = lower::lower_hir(&program).unwrap();
    let stats = decompose_hir_to_rz_sx_cx(&mut hir);
    assert_eq!(stats.gates_decomposed, 0);
    assert_eq!(hir.gate_count(), 2);
}

#[test]
fn optimizing_twice_removes_nothing_more() {
    let mut parser = Parser::new("OPENQASM 3.0; qubit[2] q; h q[0]; h q[0]; x q[1]; z q[1]; x q[1]; if (true) { s q[0]; sdg q[0]; }");
    let program = parser.parse().expect("parse failed");
    let mut hir = lower::lower_hir(&program).expect("lowering failed");
    let first = optimize_hir(&mut hir);
    assert_eq!(first.gates_removed, 4);
    let gates = hir.gate_count();
    let text = hir.emit_qasm();
    let second = optimize_hir(&mut hir);
    assert_eq!(second.gates_removed, 0);
    assert_eq!(hir.gate_count(), gates);
    assert_eq!(hir.emit_qasm(), text);
}

#[test]
fn cancellation_keeps_gates_split_by_a_non_commuting_gate() {
    let mut dag = lower_source("OPENQASM 3.0; qubit q; z q; x q; z q;");
    let stats = cancel_inverses(&mut dag);
    assert_eq!(stats.gates_removed, 0);
    assert_eq!(dag.gate_count(), 3);
}

#[test]
fn optimizing_removes_operations_only_by_the_cancelled_gates() {
    let mut parser = Parser::new(
        "OPENQASM 3.0; qubit[2] q; x q[0]; x q[0]; measure q[0]; reset q[1]; while (true) { s q[1]; sdg q[1]; h q[1]; }",
    );
    let program = parser.parse().expect("parse failed");
    let mut hir = lower::lower_hir(&program).expect("lowering failed");
    let ops_before = hir.op_count();
    let gates_before = hir.gate_count();
    let stats = optimize_hir(&mut hir);
    assert_eq!(stats.gates_removed, 4);
    assert_eq!(hir.op_count() + stats.gates_removed, ops_before);
    assert_eq!(hir.gate_count() + stats.gates_removed, gates_before);
    assert_eq!(hir.op_count(), 3);
}

#[test]
fn decomposition_adds_two_gates_per_h_and_one_per_x_across_regions() {
    let mut parser = Parser::new(
        "OPENQASM 3.0; gate g q { x q; } qubit[2] q; h q[0]; X q[1]; cx q[0], q[1]; g q[0]; if (true) { h q[1]; ctrl @ x q[0], q[1]; }",
    );
    let program = parser.parse().unwrap();
    let mut hir = lower::lower_hir(&program).unwrap();
    let before = hir.gate_count();
    let stats = decompose_hir_to_rz_sx_cx(&mut hir);
    assert_eq!(stats.gates_decomposed, 3);
    assert_eq!(hir.gate_count(), before + 2 + 1 + 2);
}
