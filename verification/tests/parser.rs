use qasm_rs::ast::{AssignOp, BinOp, ClassicalType, CompareOp, Expr, Stmt};
use qasm_rs::parser::Parser;

#[test]
fn parse_scalar_qubit() {
    let source = "OPENQASM 3.0; qubit q; h q;";
    let mut parser = Parser::new(source);
    let program = parser.parse().expect("parse failed");
    assert_eq!(program.statements.len(), 2);
}

#[test]
fn parse_measure_and_reset() {
    let source = "OPENQASM 3.0; qubit q; measure q; reset q;";
    let mut parser = Parser::new(source);
    let program = parser.parse().expect("parse failed");
    assert_eq!(program.statements.len(), 3);
}

#[test]
fn parse_barrier() {
    let source = "OPENQASM 3.0; qubit[3] q; barrier q[0], q[1], q[2];";
    let mut parser = Parser::new(source);
    let program = parser.parse().expect("parse failed");
    assert_eq!(program.statements.len(), 2);
}

#[test]
fn parse_parameterized_gate() {
    let source = "OPENQASM 3.0; qubit q; rx(pi/2) q;";
    let mut parser = Parser::new(source);
    let program = parser.parse().expect("parse failed");
    assert_eq!(program.statements.len(), 2);
    match &program.statements[1] {
        Stmt::GateCall { name, params, .. } => {
            assert_eq!(name, "rx");
            assert_eq!(params.len(), 1);
        }
        _ => panic!("expected gate call"),
    }
}

#[test]
fn parse_gate_def() {
    let source = "OPENQASM 3.0; gate h q { u3(pi/2, 0, pi) q; }";
    let mut parser = Parser::new(source);
    let program = parser.parse().expect("parse failed");
    assert_eq!(program.statements.len(), 1);
    match &program.statements[0] {
        Stmt::GateDef { name, params, qparams, body, .. } => {
            assert_eq!(name, "h");
            assert!(params.is_empty());
            assert_eq!(qparams, &["q"]);
            assert_eq!(body.len(), 1);
        }
        _ => panic!("expected gate def"),
    }
}

#[test]
fn parse_modified_gate() {
    let source = "OPENQASM 3.0; qubit[2] q; ctrl @ x q[0], q[1];";
    let mut parser = Parser::new(source);
    let program = parser.parse().expect("parse failed");
    assert_eq!(program.statements.len(), 2);
    match &program.statements[1] {
        Stmt::GateCall { name, modifiers, .. } => {
            assert_eq!(name, "x");
            assert_eq!(modifiers.len(), 1);
        }
        _ => panic!("expected modified gate call"),
    }
}

#[test]
fn parse_expression_precedence() {
    let source = "OPENQASM 3.0; qubit q; rx(pi/2 + 1) q;";
    let mut parser = Parser::new(source);
    let program = parser.parse().expect("parse failed");
    match &program.statements[1] {
        Stmt::GateCall { params, .. } => {
            assert_eq!(params.len(), 1);
            match &params[0] {
                Expr::BinOp { op: BinOp::Add, .. } => {}
                other => panic!("expected Add at top, got {:?}", other),
            }
        }
        _ => panic!("expected gate call"),
    }
}

#[test]
fn parse_qreg_creg_compat() {
    let source = "OPENQASM 3.0; qreg q[2]; creg c[2]; h q[0];";
    let mut parser = Parser::new(source);
    let program = parser.parse().expect("parse failed");
    assert_eq!(program.statements.len(), 3);
}

#[test]
fn parse_classical_decl() {
    let source = "OPENQASM 3.0; int x = 42; float y; bool flag = true;";
    let mut parser = Parser::new(source);
    let program = parser.parse().expect("parse failed");
    assert_eq!(program.statements.len(), 3);
    match &program.statements[0] {
        Stmt::ClassicalDecl { ty, name, init, .. } => {
            assert_eq!(*ty, ClassicalType::Int);
            assert_eq!(name, "x");
            assert!(init.is_some());
        }
        _ => panic!("expected classical decl"),
    }
}

#[test]
fn parse_assignment() {
    let source = "OPENQASM 3.0; int x = 0; x = 5; x += 1;";
    let mut parser = Parser::new(source);
    let program = parser.parse().expect("parse failed");
    assert_eq!(program.statements.len(), 3);
    match &program.statements[2] {
        Stmt::Assignment { name, op, .. } => {
            assert_eq!(name, "x");
            assert_eq!(*op, AssignOp::AddAssign);
        }
        _ => panic!("expected assignment"),
    }
}

#[test]
fn parse_if_else() {
    let source = "OPENQASM 3.0; qubit q; bit c; c = measure q; if (c == 1) { h q; } else { x q; }";
    let mut parser = Parser::new(source);
    let program = parser.parse().expect("parse failed");
    assert_eq!(program.statements.len(), 4);
    match &program.statements[3] {
        Stmt::If { else_body, .. } => {
            assert!(else_body.is_some());
        }
        _ => panic!("expected if stmt"),
    }
}

#[test]
fn parse_for_loop() {
    let source = "OPENQASM 3.0; qubit[4] q; for int i in [0:4] { h q; }";
    let mut parser = Parser::new(source);
    let program = parser.parse().expect("parse failed");
    assert_eq!(program.statements.len(), 2);
    match &program.statements[1] {
        Stmt::For { var_name, .. } => {
            assert_eq!(var_name, "i");
        }
        _ => panic!("expected for stmt"),
    }
}

#[test]
fn parse_while_loop() {
    let source = "OPENQASM 3.0; int count = 0; while (count < 10) { count += 1; }";
    let mut parser = Parser::new(source);
    let program = parser.parse().expect("parse failed");
    assert_eq!(program.statements.len(), 2);
    match &program.statements[1] {
        Stmt::While { .. } => {}
        _ => panic!("expected while stmt"),
    }
}

#[test]
fn parse_comparison_expr() {
    let source = "OPENQASM 3.0; int x = 0; if (x == 0) { x = 1; }";
    let mut parser = Parser::new(source);
    let program = parser.parse().expect("parse failed");
    match &program.statements[1] {
        Stmt::If { condition, .. } => match condition {
            Expr::Compare { op, .. } => assert_eq!(*op, CompareOp::Eq),
            other => panic!("expected comparison, got {:?}", other),
        },
        _ => panic!("expected if"),
    }
}

#[test]
fn parse_reports_missing_version_header() {
    let mut parser = Parser::new("qubit q;");
    assert!(parser.parse().is_err());
}

#[test]
fn parse_recovering_collects_each_error() {
    let mut parser = Parser::new("OPENQASM 3.0; qubit ; bit ; h q;");
    match parser.parse_recovering() {
        Err(errors) => assert_eq!(errors.len(), 2),
        Ok(_) => panic!("two statements are malformed"),
    }
}

#[test]
fn a_missing_token_is_named_with_what_was_found() {
    let mut parser = Parser::new("OPENQASM 3.0; qubit q h q;");
    let err = parser.parse().expect_err("missing semicolon");
    assert_eq!(err.message, "expected Semicolon, found Ident(\"h\")");
    let mut parser = Parser::new("OPENQASM 3.0; qubit q");
    let err = parser.parse().expect_err("missing semicolon at the end");
    assert_eq!(err.message, "expected Semicolon, found end of file");
}

#[test]
fn recovery_reports_each_error_with_its_message() {
    let mut parser = Parser::new("OPENQASM 3.0; qubit q; ) ; h q; qubit[x] r;");
    let errors = parser.parse_recovering().expect_err("two syntax errors");
    assert_eq!(errors.len(), 2);
    assert_eq!(errors[0].message, "unexpected token at statement level");
    assert_eq!(errors[1].message, "expected integer size in brackets");
}

#[test]
fn version_and_float_literals_keep_their_canonical_text() {
    let mut parser = Parser::new("OPENQASM 3.0; qubit q; rx(1.50) q; rz(2.5e-1) q;");
    let program = parser.parse_recovering().expect("parses");
    assert_eq!(program.version, "3");
    let mut parser = Parser::new("OPENQASM 3; qubit q;");
    assert_eq!(parser.parse().expect("parses").version, "3");
}
