use qasm_rs::codegen::emit;
use qasm_rs::text::float_display;
use qasm_rs::parser::Parser;

/// Parse source, emit it, re-parse the output, and check the statement counts match.
fn round_trip(source: &str) {
    let mut p1 = Parser::new(source);
    let prog1 = p1.parse().expect("initial parse failed");
    let emitted = emit(&prog1);
    let mut p2 = Parser::new(&emitted);
    let prog2 = p2
        .parse()
        .expect(&format!("re-parse of emitted code failed.\nEmitted:\n{}", emitted));
    assert_eq!(prog1.statements.len(), prog2.statements.len());
}

#[test]
fn round_trip_bell_pair() {
    round_trip(
        "OPENQASM 3.0;\n\
         qubit[2] q;\n\
         bit[2] c;\n\
         h q[0];\n\
         cx q[0], q[1];\n\
         c = measure q;\n",
    );
}

#[test]
fn round_trip_scalar() {
    round_trip("OPENQASM 3.0; qubit q; bit c; h q; measure q; reset q;");
}

#[test]
fn round_trip_barrier() {
    round_trip("OPENQASM 3.0; qubit[3] q; barrier q[0], q[1], q[2];");
}

#[test]
fn round_trip_gate_def() {
    round_trip("OPENQASM 3.0; gate h q { U(pi/2, 0, pi) q; }");
}

#[test]
fn round_trip_gate_def_with_params() {
    round_trip("OPENQASM 3.0; gate rx(theta) q { U(theta, -pi/2, pi/2) q; }");
}

#[test]
fn round_trip_modified_gate() {
    round_trip("OPENQASM 3.0; gate cx c, t { ctrl @ x c, t; }");
}

#[test]
fn round_trip_parameterized_call() {
    round_trip("OPENQASM 3.0; qubit q; rx(pi/2) q;");
}

#[test]
fn round_trip_complex_expr() {
    round_trip("OPENQASM 3.0; qubit q; rx(pi / 2 + 1) q;");
}

#[test]
fn round_trip_inv_modifier() {
    round_trip("OPENQASM 3.0; qubit q; inv @ h q;");
}

#[test]
fn round_trip_pow_modifier() {
    round_trip("OPENQASM 3.0; qubit q; pow(2) @ h q;");
}

#[test]
fn round_trip_if_else() {
    round_trip(
        "OPENQASM 3.0;\n\
         qubit q;\n\
         bit c;\n\
         c = measure q;\n\
         if (c == 1) {\n\
           h q;\n\
         } else {\n\
           x q;\n\
         }\n",
    );
}

#[test]
fn round_trip_for_loop() {
    round_trip(
        "OPENQASM 3.0;\n\
         qubit[4] q;\n\
         for int i in [0:4] {\n\
           h q;\n\
         }\n",
    );
}

#[test]
fn round_trip_while_loop() {
    round_trip(
        "OPENQASM 3.0;\n\
         int count = 0;\n\
         while (count < 10) {\n\
           count += 1;\n\
         }\n",
    );
}

#[test]
fn round_trip_classical_decl() {
    round_trip("OPENQASM 3.0; int x = 42; float y; bool flag = true;");
}

#[test]
fn round_trip_assignment() {
    round_trip("OPENQASM 3.0; int x = 0; x = 5; x += 1;");
}

#[test]
fn emitted_output_is_valid_qasm() {
    let source = "OPENQASM 3.0; qubit[2] q; bit[2] c; h q[0]; cx q[0], q[1]; c = measure q;";
    let mut parser = Parser::new(source);
    let program = parser.parse().unwrap();
    let output = emit(&program);

    assert!(output.starts_with("OPENQASM 3;"));
    assert!(output.contains("qubit[2] q;"));
    assert!(output.contains("h q[0];"));
    assert!(output.contains("cx q[0], q[1];"));
    assert!(output.contains("c = measure q;"));
}

#[test]
fn emitted_gate_def_formatting() {
    let source = "OPENQASM 3.0; gate rx(theta) q { U(theta, -pi/2, pi/2) q; }";
    let mut parser = Parser::new(source);
    let program = parser.parse().unwrap();
    let output = emit(&program);
    assert!(output.contains("gate rx(theta) q {"));
    assert!(output.contains("  U(theta, -pi / 2, pi / 2) q;"));
    assert!(output.contains("}"));
}

#[test]
fn emitted_expressions_keep_their_grouping() {
    let source = "OPENQASM 3.0; int value = (1 + 2) * 3;";
    let mut parser = Parser::new(source);
    let program = parser.parse().unwrap();
    let output = emit(&program);
    assert!(output.contains("int value = (1 + 2) * 3;"), "{output}");
}

#[test]
fn float_text_is_canonical_decimal() {
    assert_eq!(float_display("3.0"), "3");
    assert_eq!(float_display("1.5e-3"), "0.0015");
    assert_eq!(float_display("12.50"), "12.5");
    assert_eq!(float_display("0.000"), "0");
    assert_eq!(float_display("001.25E2"), "125");
    assert_eq!(float_display("2.5e+1"), "25");
    assert_eq!(float_display("0.05"), "0.05");
}
