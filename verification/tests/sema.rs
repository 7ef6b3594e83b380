use qasm_rs::parser::Parser;
use qasm_rs::sema::{analyze, Diagnostic, Severity};

fn analyze_source(source: &str) -> Vec<Diagnostic> {
    let mut parser = Parser::new(source);
    let program = parser.parse().expect("should parse");
    analyze(&program)
}

fn errors(diags: &[Diagnostic]) -> Vec<&Diagnostic> {
    diags.iter().filter(|d| matches!(d.severity, Severity::Error)).collect()
}

#[test]
fn valid_bell_pair() {
    let diags = analyze_source("OPENQASM 3.0; qubit[2] q; bit[2] c; h q[0]; cx q[0], q[1]; c = measure q;");
    assert!(errors(&diags).is_empty(), "expected no errors: {:?}", diags);
}

#[test]
fn undeclared_qubit() {
    let diags = analyze_source("OPENQASM 3.0; h q[0];");
    assert_eq!(errors(&diags).len(), 1);
    assert!(errors(&diags)[0].message.contains("not declared"));
}

#[test]
fn duplicate_declaration() {
    let diags = analyze_source("OPENQASM 3.0; qubit q; qubit q;");
    assert_eq!(errors(&diags).len(), 1);
    assert!(errors(&diags)[0].message.contains("already declared"));
}

#[test]
fn index_out_of_bounds() {
    let diags = analyze_source("OPENQASM 3.0; qubit[2] q; h q[5];");
    assert_eq!(errors(&diags).len(), 1);
    assert!(errors(&diags)[0].message.contains("out of bounds"));
}

#[test]
fn index_on_scalar() {
    let diags = analyze_source("OPENQASM 3.0; qubit q; h q[0];");
    assert_eq!(errors(&diags).len(), 1);
    assert!(errors(&diags)[0].message.contains("cannot index"));
}

#[test]
fn kind_mismatch() {
    let diags = analyze_source("OPENQASM 3.0; bit c; h c;");
    assert_eq!(errors(&diags).len(), 1);
    assert!(errors(&diags)[0].message.contains("expected qubit"));
}

#[test]
fn use_after_measure() {
    let diags = analyze_source("OPENQASM 3.0; qubit[2] q; bit[2] c; c = measure q; h q[0];");
    assert_eq!(errors(&diags).len(), 1);
    assert!(errors(&diags)[0].message.contains("after measurement"));
}

#[test]
fn reset_clears_measured() {
    let diags = analyze_source("OPENQASM 3.0; qubit q; bit c; measure q; reset q; h q;");
    assert!(errors(&diags).is_empty(), "reset should clear measured state: {:?}", diags);
}

#[test]
fn use_after_measure_partial_reset() {
    let diags = analyze_source("OPENQASM 3.0; qubit[2] q; bit c; measure q; reset q[0]; h q[1];");
    assert_eq!(errors(&diags).len(), 1);
}

#[test]
fn gate_def_arity_check() {
    let diags = analyze_source(
        "OPENQASM 3.0; gate rx(theta) q { U(theta, 0, 0) q; }\n\
         qubit q; rx(1, 2) q;",
    );
    let errs = errors(&diags);
    assert!(errs.iter().any(|d| d.message.contains("parameter")), "expected arity error: {:?}", errs);
}

#[test]
fn gate_def_scope() {
    let diags = analyze_source(
        "OPENQASM 3.0; gate rx(theta) q { U(theta, 0, 0) q; }\n\
         qubit q; rx(theta) q;",
    );
    let errs = errors(&diags);
    assert!(
        errs.iter().any(|d| d.message.contains("not declared") && d.message.contains("theta")),
        "theta should not be in scope: {:?}",
        errs
    );
}

#[test]
fn duplicate_gate_def() {
    let diags = analyze_source("OPENQASM 3.0; gate h q { } gate h q { }");
    let errs = errors(&diags);
    assert!(errs.iter().any(|d| d.message.contains("already defined")), "expected duplicate gate error: {:?}", errs);
}

#[test]
fn classical_decl_and_assignment() {
    let diags = analyze_source("OPENQASM 3.0; int x = 42; x = 10; x += 1;");
    assert!(errors(&diags).is_empty(), "expected no errors: {:?}", diags);
}

#[test]
fn rejects_classical_type_mismatches() {
    let diags = analyze_source("OPENQASM 3.0; int x = true; bool flag = 3; x = false;");
    assert_eq!(errors(&diags).len(), 3);
    assert!(errors(&diags).iter().all(|diag| diag.message.contains("cannot")));
}

#[test]
fn rejects_non_boolean_conditions() {
    let diags = analyze_source("OPENQASM 3.0; int x = 1; if (x) { x = 2; }");
    assert!(errors(&diags).iter().any(|diag| diag.message.contains("if condition must have type bool")));
}

#[test]
fn rejects_unknown_gate() {
    let diags = analyze_source("OPENQASM 3.0; qubit q; totally_unknown q;");
    assert!(errors(&diags).iter().any(|diag| diag.message.contains("is not defined")));
}

#[test]
fn validates_control_modifier_count() {
    let valid = analyze_source("OPENQASM 3.0; qubit[3] q; ctrl(1 + 1) @ x q[0], q[1], q[2];");
    assert!(errors(&valid).is_empty(), "{valid:?}");

    let invalid = analyze_source("OPENQASM 3.0; qubit q; ctrl(0) @ x q;");
    assert!(errors(&invalid).iter().any(|diag| diag.message.contains("positive compile-time integer")));
}

#[test]
fn rejects_mismatched_measurement_widths_during_sema() {
    let diags = analyze_source("OPENQASM 3.0; qubit[2] q; bit c; c = measure q;");
    assert!(errors(&diags).iter().any(|diag| diag.message.contains("measurement source has 2")));
}

#[test]
fn rejects_mismatched_broadcast_widths_during_sema() {
    let diags = analyze_source("OPENQASM 3.0; qubit[2] a; qubit[3] b; cx a, b;");
    assert!(errors(&diags).iter().any(|diag| diag.message.contains("same length")));
}

#[test]
fn validates_qualified_declarations_and_indexed_expressions() {
    let valid = analyze_source(
        "OPENQASM 3.0; const int shots = 100; input float theta; bit[2] c; bool flag = c[1] == 1;",
    );
    assert!(errors(&valid).is_empty(), "{valid:?}");

    let invalid = analyze_source("OPENQASM 3.0; const int shots; shots = 2; bit[1] c; bool b = c[2] == 1;");
    assert!(errors(&invalid).len() >= 3, "{invalid:?}");
}

#[test]
fn validates_expression_functions() {
    let valid = analyze_source("OPENQASM 3.0; def twice(int x) -> int { return x * 2; } int y = twice(3);");
    assert!(errors(&valid).is_empty(), "{valid:?}");

    let invalid = analyze_source("OPENQASM 3.0; def bad(bool x) -> int { return x; } int y = bad(3);");
    assert!(errors(&invalid).len() >= 2, "{invalid:?}");
}

#[test]
fn validates_uint_and_angle_types() {
    let diags = analyze_source("OPENQASM 3.0; uint count = 2; angle theta = pi / 2; qubit q; rz(theta) q;");
    assert!(errors(&diags).is_empty(), "{diags:?}");
}

#[test]
fn validates_quantum_operand_slices() {
    let valid = analyze_source("OPENQASM 3.0; qubit[4] q; h q[1:3];");
    assert!(errors(&valid).is_empty(), "{valid:?}");
    let invalid = analyze_source("OPENQASM 3.0; qubit[2] q; h q[1:3];");
    assert!(errors(&invalid).iter().any(|diag| diag.message.contains("slice 1:3")));
}

#[test]
fn undeclared_assignment() {
    let diags = analyze_source("OPENQASM 3.0; y = 5;");
    assert_eq!(errors(&diags).len(), 1);
    assert!(errors(&diags)[0].message.contains("not declared"));
}

#[test]
fn for_loop_scoping() {
    let diags = analyze_source("OPENQASM 3.0; qubit[4] q; for int i in [0:4] { h q; } i = 5;");
    let errs = errors(&diags);
    assert!(
        errs.iter().any(|d| d.message.contains("not declared") || d.message.contains("`i`")),
        "expected scoping error for `i`: {:?}",
        errs
    );
}

#[test]
fn conservative_if_linearity() {
    let diags = analyze_source(
        "OPENQASM 3.0; qubit q; bit c; int x = 0;\n\
         if (x == 0) { c = measure q; }\n\
         h q;",
    );
    let errs = errors(&diags);
    assert!(
        errs.iter().any(|d| d.message.contains("after measurement")),
        "expected conservative linearity error: {:?}",
        errs
    );
}

#[test]
fn while_loop_linearity() {
    let diags = analyze_source(
        "OPENQASM 3.0; qubit q; bit c; int x = 0;\n\
         while (x < 1) { c = measure q; x += 1; }\n\
         h q;",
    );
    let errs = errors(&diags);
    assert!(
        errs.iter().any(|d| d.message.contains("after measurement")),
        "expected linearity error after while: {:?}",
        errs
    );
}

#[test]
fn valid_if_no_measure() {
    let diags = analyze_source(
        "OPENQASM 3.0; qubit q; int x = 0;\n\
         if (x == 0) { h q; } else { x q; }\n\
         h q;",
    );
    assert!(errors(&diags).is_empty(), "expected no errors: {:?}", diags);
}

#[test]
fn expr_undeclared_ident() {
    let diags = analyze_source("OPENQASM 3.0; int x = y + 1;");
    let errs = errors(&diags);
    assert!(errs.iter().any(|d| d.message.contains("`y`")), "expected undeclared `y`: {:?}", errs);
}

#[test]
fn reset_of_one_wire_keeps_the_register_measured() {
    // Measuring a whole register marks the register itself, which a reset of
    // one index does not clear: both later uses are reported.
    let diags = analyze_source("OPENQASM 3.0; qubit[2] q; bit[2] c; c = measure q; reset q[1]; h q[1]; h q[0];");
    assert_eq!(errors(&diags).len(), 2);
    assert!(errors(&diags).iter().all(|d| d.message.contains("after measurement")));
}

#[test]
fn reset_of_the_register_clears_every_index() {
    let diags = analyze_source("OPENQASM 3.0; qubit[2] q; bit[2] c; c = measure q; reset q; h q[1]; h q[0];");
    assert!(errors(&diags).is_empty(), "{diags:?}");
}

#[test]
fn if_else_measured_in_either_branch_is_blocked() {
    let diags = analyze_source(
        "OPENQASM 3.0; qubit q; bit c; int x = 0; if (x == 0) { h q; } else { c = measure q; } h q;",
    );
    assert!(errors(&diags).iter().any(|d| d.message.contains("after measurement")));
}
