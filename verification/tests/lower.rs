use qasm_rs::ir::CircuitDAG;
use qasm_rs::lower::{lower, lower_hir};
use qasm_rs::parser::Parser;

fn lower_source(source: &str) -> CircuitDAG {
    let mut parser = Parser::new(source);
    let program = parser.parse().expect("parse failed");
    lower(&program).expect("lowering failed")
}

#[test]
fn lower_bell_pair() {
    let dag = lower_source("OPENQASM 3.0; qubit[2] q; bit[2] c; h q[0]; cx q[0], q[1]; c = measure q;");
    assert_eq!(dag.num_qubits, 2);
    assert_eq!(dag.num_bits, 2);
    assert_eq!(dag.gate_count(), 2);
    assert_eq!(dag.op_count(), 4);
}

#[test]
fn lower_scalar_qubit() {
    let dag = lower_source("OPENQASM 3.0; qubit q; h q;");
    assert_eq!(dag.num_qubits, 1);
    assert_eq!(dag.gate_count(), 1);
}

#[test]
fn lower_parameterized_gate() {
    let dag = lower_source("OPENQASM 3.0; qubit q; rx(pi/2) q;");
    assert_eq!(dag.gate_count(), 1);
}

#[test]
fn lower_modified_gate() {
    let dag = lower_source("OPENQASM 3.0; qubit[2] q; ctrl @ x q[0], q[1];");
    assert_eq!(dag.gate_count(), 1);
}

#[test]
fn lower_preserves_depth() {
    let dag = lower_source("OPENQASM 3.0; qubit[2] q; h q[0]; x q[1]; cx q[0], q[1];");
    assert_eq!(dag.depth(), 2);
}

#[test]
fn lower_emits_valid_qasm() {
    let dag = lower_source("OPENQASM 3.0; qubit[2] q; bit[2] c; h q[0]; cx q[0], q[1]; c = measure q;");
    let qasm = dag.emit_qasm();
    assert!(qasm.contains("h q[0]"));
    assert!(qasm.contains("cx q[0], q[1]"));
    assert!(qasm.contains("measure"));
}

#[test]
fn lower_rejects_control_flow() {
    let mut parser = Parser::new("OPENQASM 3.0; qubit q; int x = 0; if (x == 0) { h q; }");
    let program = parser.parse().expect("parse failed");
    assert!(lower(&program).is_err());
}

#[test]
fn lower_broadcasts_register_operands() {
    let dag = lower_source("OPENQASM 3.0; qubit[3] q; h q;");
    assert_eq!(dag.gate_count(), 3);
    assert_eq!(dag.depth(), 1);
}

#[test]
fn lower_reports_unresolved_operands() {
    let mut parser = Parser::new("OPENQASM 3.0; qubit q; h r;");
    let program = parser.parse().expect("parse failed");
    let err = lower(&program).unwrap_err();
    assert_eq!(err.message, "unresolved qubit `r`");
}

#[test]
fn lower_rejects_mismatched_broadcast() {
    let mut parser = Parser::new("OPENQASM 3.0; qubit[2] a; qubit[3] b; cx a, b;");
    let program = parser.parse().expect("parse failed");
    let err = lower(&program).unwrap_err();
    assert_eq!(err.message, "gate register operands must have the same length for broadcasting");
}

#[test]
fn lower_hir_keeps_control_flow_regions() {
    let mut parser = Parser::new("OPENQASM 3.0; qubit q; bool flag = true; if (flag) { h q; } x q;");
    let program = parser.parse().expect("parse failed");
    let hir = lower_hir(&program).expect("lowering failed");
    assert_eq!(hir.num_qubits, 1);
    assert_eq!(hir.gate_count(), 2);
    let qasm = hir.emit_qasm();
    assert!(qasm.starts_with("OPENQASM 3;\n"));
    assert!(qasm.contains("if (flag)"));
}

#[test]
fn straight_line_lowering_refuses_control_flow() {
    let mut parser = Parser::new("OPENQASM 3.0; qubit q; h q; if (true) { x q; }");
    let program = parser.parse().expect("parse failed");
    let err = lower(&program).expect_err("control flow must be refused");
    assert_eq!(
        err.message,
        "classical control flow is not yet supported in IR lowering — only straight-line quantum circuits can be lowered"
    );
}

#[test]
fn straight_line_lowering_reports_the_first_failing_statement() {
    let mut parser = Parser::new("OPENQASM 3.0; qubit q; h r; if (true) { x q; }");
    let program = parser.parse().expect("parse failed");
    let err = lower(&program).expect_err("unknown qubit must be refused");
    assert_eq!(err.message, "unresolved qubit `r`");
}

#[test]
fn straight_line_lowering_skips_classical_statements() {
    let dag = lower_source("OPENQASM 3.0; qubit[2] q; int n = 3; x q[0]; h q[1];");
    assert_eq!(dag.num_qubits, 2);
    assert_eq!(dag.gate_count(), 2);
    assert_eq!(dag.op_count(), 2);
}

#[test]
fn emission_keeps_each_wires_operations_in_program_order() {
    let dag = lower_source("OPENQASM 3.0; qubit[2] q; x q[1]; h q[0]; s q[1]; cx q[0], q[1]; t q[0]; z q[1];");
    let qasm = dag.emit_qasm();
    let at = |text: &str| qasm.find(text).expect("operation missing");
    assert!(at("x q[1];") < at("s q[1];"));
    assert!(at("s q[1];") < at("cx q[0], q[1];"));
    assert!(at("h q[0];") < at("cx q[0], q[1];"));
    assert!(at("cx q[0], q[1];") < at("t q[0];"));
    assert!(at("cx q[0], q[1];") < at("z q[1];"));
}
