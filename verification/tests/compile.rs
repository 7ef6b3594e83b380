use qasm_rs::parser::Parser;
use qasm_rs::sema::Severity;
use qasm_rs::{compile_program, compile_source, CompileError, CompileOptions};

#[test]
fn compile_source_preserves_control_flow() {
    let source = "OPENQASM 3.0; qubit q; bool flag = true; if (flag == true) { h q; } else { x q; }";
    let output = compile_source(source, CompileOptions { optimize: false }).expect("control flow should lower to HIR");

    assert!(output.qasm.contains("if (flag == true)"));
    assert!(output.qasm.contains("h q;"));
    assert!(output.qasm.contains("x q;"));
    assert_eq!(output.hir.gate_count(), 2);
}

#[test]
fn compile_source_optimizes_nested_circuit_regions() {
    let source = "OPENQASM 3.0; qubit q; if (true) { h q; h q; }";
    let output = compile_source(source, CompileOptions { optimize: true }).expect("nested circuit region should optimize");

    assert!(output.qasm.contains("if (true)"));
    assert!(!output.qasm.contains("h q;"));
    assert_eq!(output.gates_removed, 2);
    assert_eq!(output.hir.gate_count(), 0);
}

#[test]
fn default_options_optimize() {
    assert!(CompileOptions::default().optimize);
}

#[test]
fn compile_without_optimization_removes_nothing() {
    let output = compile_source("OPENQASM 3.0; qubit q; h q; h q;", CompileOptions { optimize: false }).unwrap();
    assert_eq!(output.gates_removed, 0);
    assert_eq!(output.hir.gate_count(), 2);
    assert!(output.qasm.starts_with("OPENQASM 3;\n"));
}

#[test]
fn compile_reports_lex_errors() {
    match compile_source("OPENQASM 3.0; qubit # q;", CompileOptions::default()) {
        Err(CompileError::Lex(spans)) => assert_eq!(spans.len(), 1),
        Err(other) => panic!("expected lex errors, got {other:?}"),
        Ok(_) => panic!("the source holds an invalid byte"),
    }
}

#[test]
fn compile_reports_semantic_errors() {
    match compile_source("OPENQASM 3.0; qubit q; bit c; c = measure q; h q;", CompileOptions::default()) {
        Err(CompileError::Semantic(diags)) => {
            assert!(diags.iter().any(|d| d.severity == Severity::Error && d.message.contains("after measurement")))
        }
        Err(other) => panic!("expected semantic errors, got {other:?}"),
        Ok(_) => panic!("the qubit is used after measurement"),
    }
}

#[test]
fn compile_program_returns_all_diagnostics() {
    let mut parser = Parser::new("OPENQASM 3.0; qubit[2] q; h q[0];");
    let program = parser.parse().unwrap();
    let output = compile_program(&program, CompileOptions::default()).unwrap();
    assert!(output.diagnostics.iter().all(|d| d.severity != Severity::Error));
    assert_eq!(output.hir.num_qubits, 2);
    assert_eq!(output.hir.version, program.version);
}

#[test]
fn optimizing_removes_exactly_the_reported_gates() {
    let source = "OPENQASM 3.0; qubit[2] q; h q[0]; h q[0]; x q[1]; cx q[0], q[1]; cx q[0], q[1]; if (true) { s q[0]; sdg q[0]; t q[1]; }";
    let plain = compile_source(source, CompileOptions { optimize: false }).expect("compiles");
    let optimized = compile_source(source, CompileOptions { optimize: true }).expect("compiles");
    assert_eq!(plain.gates_removed, 0);
    assert_eq!(plain.hir.gate_count(), 8);
    assert_eq!(optimized.gates_removed, 6);
    assert_eq!(optimized.hir.gate_count() + optimized.gates_removed, plain.hir.gate_count());
    assert_eq!(optimized.gates_removed % 2, 0);
}

#[test]
fn compiled_text_is_the_emission_of_the_output_hir() {
    let source = "OPENQASM 3.0; qubit[3] q; h q[2]; cx q[0], q[1]; for int i in [0:2] { x q[1]; } t q[0];";
    for optimize in [false, true] {
        let output = compile_source(source, CompileOptions { optimize }).expect("compiles");
        assert_eq!(output.qasm, output.hir.emit_qasm());
        assert_eq!(output.hir.emit_qasm(), output.hir.emit_qasm());
    }
}

#[test]
fn optimization_does_not_change_whether_a_program_compiles() {
    let good = "OPENQASM 3.0; qubit q; h q; h q;";
    assert!(compile_source(good, CompileOptions { optimize: false }).is_ok());
    assert!(compile_source(good, CompileOptions { optimize: true }).is_ok());
    let bad = "OPENQASM 3.0; qubit q; bit c; c = measure q; h q;";
    let plain = compile_source(bad, CompileOptions { optimize: false });
    let optimized = compile_source(bad, CompileOptions { optimize: true });
    assert!(matches!(plain, Err(CompileError::Semantic(_))));
    assert!(matches!(optimized, Err(CompileError::Semantic(_))));
}

#[test]
fn compiled_text_keeps_version_and_float_literals() {
    let output = compile_source("OPENQASM 3.0; qubit q; rx(1.50) q; rz(2.5e-1) q;", CompileOptions::default())
        .expect("compiles");
    assert!(output.qasm.starts_with("OPENQASM 3;\n"));
    assert!(output.qasm.contains("rx(1.5) q;"));
    assert!(output.qasm.contains("rz(0.25) q;"));
}
