use qasm_rs::hir::DepthEstimate;
use qasm_rs::lower::lower_hir;
use qasm_rs::parser::Parser;

#[test]
fn sequential_estimates_add() {
    assert_eq!(DepthEstimate::Exact(2).add(DepthEstimate::Exact(3)), DepthEstimate::Exact(5));
    assert_eq!(DepthEstimate::Exact(2).add(DepthEstimate::AtLeast(3)), DepthEstimate::AtLeast(5));
    assert_eq!(DepthEstimate::Exact(usize::MAX).add(DepthEstimate::Exact(1)), DepthEstimate::Exact(usize::MAX));
}

#[test]
fn repeated_estimates_multiply() {
    assert_eq!(DepthEstimate::Exact(4).repeat(3), DepthEstimate::Exact(12));
    assert_eq!(DepthEstimate::AtLeast(4).repeat(0), DepthEstimate::AtLeast(0));
}

#[test]
fn branches_take_the_larger_bound() {
    assert_eq!(DepthEstimate::branch(DepthEstimate::Exact(2), DepthEstimate::Exact(7)), DepthEstimate::Exact(7));
    assert_eq!(DepthEstimate::branch(DepthEstimate::AtLeast(9), DepthEstimate::Exact(7)), DepthEstimate::AtLeast(9));
}

#[test]
fn estimate_text() {
    assert_eq!(DepthEstimate::Exact(3).to_text(), "3");
    assert_eq!(DepthEstimate::AtLeast(3).to_text(), ">=3");
    assert_eq!(DepthEstimate::AtLeast(3).lower_bound(), 3);
}

#[test]
fn straight_line_depth_is_exact() {
    let mut parser = Parser::new("OPENQASM 3.0; qubit[2] q; h q[0]; cx q[0], q[1];");
    let hir = lower_hir(&parser.parse().unwrap()).unwrap();
    assert_eq!(hir.depth_estimate(), DepthEstimate::Exact(2));
    assert_eq!(hir.depth(), 2);
}

#[test]
fn unknown_loop_bound_gives_a_lower_bound() {
    let mut parser = Parser::new("OPENQASM 3.0; qubit q; int n = 0; while (n < 3) { h q; n += 1; }");
    let hir = lower_hir(&parser.parse().unwrap()).unwrap();
    assert!(matches!(hir.depth_estimate(), DepthEstimate::AtLeast(_)));
}

#[test]
fn counted_loop_repeats_its_body() {
    let mut parser = Parser::new("OPENQASM 3.0; qubit q; for int i in [0:3] { h q; }");
    let hir = lower_hir(&parser.parse().unwrap()).unwrap();
    assert_eq!(hir.gate_count(), 1);
    assert_eq!(hir.depth_estimate(), DepthEstimate::Exact(4));
}
