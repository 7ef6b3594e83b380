use qasm_rs::ast::Stmt;
use qasm_rs::codegen;
use qasm_rs::inline::{inline_definitions, inline_gate_definitions};
use qasm_rs::parser::Parser;

#[test]
fn inlines_parameterized_nested_gate_calls() {
    let mut parser = Parser::new(
        "OPENQASM 3.0; gate turn(theta) q { rz(theta) q; } gate twice(phi) q { turn(phi) q; turn(phi) q; } qubit q; twice(pi / 2) q;",
    );
    let program = parser.parse().unwrap();
    let inlined = inline_gate_definitions(&program).unwrap();
    let emitted = codegen::emit(&inlined);
    assert!(!emitted.contains("gate turn"));
    assert!(!emitted.contains("twice("));
    assert_eq!(emitted.matches("rz(").count(), 2);
    assert!(emitted.contains("pi / 2"));
}

#[test]
fn inlines_expression_functions() {
    let mut parser = Parser::new("OPENQASM 3.0; def twice(int x) -> int { return x * 2; } int y = twice(3);");
    let program = parser.parse().unwrap();
    let inlined = inline_definitions(&program).unwrap();
    let emitted = codegen::emit(&inlined);
    assert!(!emitted.contains("def twice"));
    assert!(!emitted.contains("twice(3)"));
    assert!(emitted.contains("3 * 2"));
}

#[test]
fn retains_definition_for_modified_composite_call() {
    let mut parser = Parser::new("OPENQASM 3.0; gate custom q { x q; } qubit q; inv @ custom q;");
    let program = parser.parse().unwrap();
    let inlined = inline_gate_definitions(&program).unwrap();
    let emitted = codegen::emit(&inlined);
    assert!(emitted.contains("gate custom"));
    assert!(emitted.contains("inv @ custom q;"));
}

#[test]
fn rejects_recursive_gate_definitions() {
    let mut parser = Parser::new("OPENQASM 3.0; gate loop_gate q { loop_gate q; } qubit q; loop_gate q;");
    let program = parser.parse().unwrap();
    let err = inline_gate_definitions(&program).unwrap_err();
    assert_eq!(err.message, "recursive gate definition involving `loop_gate`");
    assert_eq!(err.describe(), "inlining error: recursive gate definition involving `loop_gate`");
}

#[test]
fn rejects_gate_arity_mismatch() {
    let mut parser = Parser::new("OPENQASM 3.0; gate turn(theta) q { rz(theta) q; } qubit q; turn q;");
    let program = parser.parse().unwrap();
    let err = inline_gate_definitions(&program).unwrap_err();
    assert_eq!(err.message, "arity mismatch while inlining gate `turn`");
}

#[test]
fn rejects_recursive_functions() {
    let mut parser = Parser::new("OPENQASM 3.0; def f(int x) -> int { return f(x); } int y = f(1);");
    let program = parser.parse().unwrap();
    let err = inline_definitions(&program).unwrap_err();
    assert_eq!(err.message, "recursive function definition involving `f`");
}

#[test]
fn rejects_function_arity_mismatch() {
    let mut parser = Parser::new("OPENQASM 3.0; def f(int x) -> int { return x; } int y = f(1, 2);");
    let program = parser.parse().unwrap();
    let err = inline_definitions(&program).unwrap_err();
    assert_eq!(err.message, "arity mismatch while inlining function `f`");
}

#[test]
fn substitutes_qubit_arguments() {
    let mut parser = Parser::new("OPENQASM 3.0; gate pair a, b { cx a, b; } qubit[2] r; pair r[1], r[0];");
    let program = parser.parse().unwrap();
    let inlined = inline_gate_definitions(&program).unwrap();
    let emitted = codegen::emit(&inlined);
    assert!(emitted.contains("cx r[1], r[0];"), "{emitted}");
    assert!(!inlined.statements.iter().any(|s| matches!(s, Stmt::GateDef { .. })));
}

#[test]
fn inlines_inside_control_flow() {
    let mut parser = Parser::new("OPENQASM 3.0; gate flip q { x q; } qubit q; bool b = true; if (b) { flip q; } else { flip q; }");
    let program = parser.parse().unwrap();
    let inlined = inline_gate_definitions(&program).unwrap();
    let emitted = codegen::emit(&inlined);
    assert!(!emitted.contains("flip"), "{emitted}");
    assert_eq!(emitted.matches("x q;").count(), 2);
}
