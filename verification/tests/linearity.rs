use qasm_rs::analysis::linearity::LinearityAnalyzer;

#[test]
fn gate_on_live_qubit_is_ok() {
    let mut analyzer = LinearityAnalyzer::new();
    analyzer.declare_qubit("q");

    assert!(analyzer.apply_gate("h", "q").is_ok());
}

#[test]
fn use_after_measure_is_rejected() {
    let mut analyzer = LinearityAnalyzer::new();
    analyzer.declare_qubit("q");

    analyzer.measure("q").unwrap();

    let err = analyzer.apply_gate("x", "q").unwrap_err();

    assert!(err.message.contains("measured qubit"));
    assert!(err.help.unwrap().contains("reset q;"));
}

#[test]
fn reset_restores_qubit_to_live_state() {
    let mut analyzer = LinearityAnalyzer::new();
    analyzer.declare_qubit("q");

    analyzer.measure("q").unwrap();
    analyzer.reset("q").unwrap();

    assert!(analyzer.apply_gate("x", "q").is_ok());
}

#[test]
fn undeclared_qubit_is_rejected() {
    let analyzer = LinearityAnalyzer::new();

    let err = analyzer.apply_gate("h", "q").unwrap_err();

    assert!(err.message.contains("undeclared qubit"));
}

#[test]
fn linearity_messages_are_exact() {
    let mut analyzer = LinearityAnalyzer::new();
    analyzer.declare_qubit("q");
    analyzer.measure("q").unwrap();
    let err = analyzer.apply_gate("x", "q").unwrap_err();
    assert_eq!(err.message, "cannot apply gate `x` to measured qubit `q`");
    assert_eq!(err.help.as_deref(), Some("insert `reset q;` before using `q` again"));

    let again = analyzer.measure("q").unwrap_err();
    assert_eq!(again.message, "qubit `q` has already been measured");
    assert_eq!(again.help.as_deref(), Some("insert `resetq;` before measureing it again"));

    let undeclared = analyzer.apply_gate("h", "r").unwrap_err();
    assert_eq!(undeclared.message, "use of undeclared qubit `r`");
    assert_eq!(undeclared.help.as_deref(), Some("delcare it first with `qubit r;`"));

    assert!(analyzer.measure("r").unwrap_err().message.contains("cannot measure undeclared qubit"));
    assert!(analyzer.reset("r").unwrap_err().message.contains("cannot reset undeclared qubit"));
}

#[test]
fn redeclaring_a_measured_qubit_makes_it_live() {
    let mut analyzer = LinearityAnalyzer::new();
    analyzer.declare_qubit("q");
    analyzer.measure("q").unwrap();
    analyzer.declare_qubit("q");
    assert!(analyzer.apply_gate("h", "q").is_ok());
}
