use qasm_rs::includes::{strip_version_header, IncludeError, IncludeExpander, IncludeStep};

/// Expand `root` against an in-memory set of files, resolving each directive
/// relative to the folder of the file that holds it.
fn expand(files: &[(&str, &str)], root: &str) -> Result<String, IncludeError> {
    let mut expander = IncludeExpander::new();
    let mut target = root.to_string();
    loop {
        let text = match files.iter().find(|(path, _)| *path == target) {
            Some((_, text)) => text.to_string(),
            None => {
                return Err(IncludeError::Io { path: target, message: "not found".to_string() });
            }
        };
        expander.open(target.clone())?;
        match expander.read(text) {
            IncludeStep::Load { from, target: wanted } => {
                let folder = from.rsplit_once('/').map(|(dir, _)| dir).unwrap_or("");
                target = format!("{folder}/{wanted}");
            }
            IncludeStep::Done(expanded) => return Ok(expanded),
            IncludeStep::Failed(error) => return Err(error),
        }
    }
}

#[test]
fn expands_nested_local_includes() {
    let files = [
        ("/dir/gates.inc", "gate custom q { x q; }\n"),
        ("/dir/main.qasm", "OPENQASM 3.0; include \"gates.inc\"; qubit q; custom q;"),
    ];
    let expanded = expand(&files, "/dir/main.qasm").unwrap();
    assert!(expanded.contains("gate custom"));
    assert!(!expanded.contains("include \"gates.inc\""));
}

#[test]
fn rejects_include_cycles() {
    let files = [
        ("/dir/a.qasm", "OPENQASM 3.0; include \"b.qasm\";"),
        ("/dir/b.qasm", "OPENQASM 3.0; include \"a.qasm\";"),
    ];
    let error = expand(&files, "/dir/a.qasm").unwrap_err();
    assert!(matches!(error, IncludeError::Cycle { .. }));
    assert_eq!(error.describe(), "include cycle detected at /dir/a.qasm");
}

#[test]
fn expansion_text_is_exact() {
    let files = [
        ("/p/inner.inc", "OPENQASM 3.0; gate g q { x q; }"),
        ("/p/main.qasm", "OPENQASM 3.0; include \"inner.inc\"; qubit q;"),
    ];
    let expanded = expand(&files, "/p/main.qasm").unwrap();
    assert_eq!(expanded, "OPENQASM 3.0; // expanded inner.inc\n gate g q { x q; } qubit q;");
}

#[test]
fn standard_gates_stay_a_directive() {
    let files = [("/s/main.qasm", "OPENQASM 3.0; include \"stdgates.inc\"; qubit q; h q;")];
    let expanded = expand(&files, "/s/main.qasm").unwrap();
    assert_eq!(expanded, "OPENQASM 3.0; include \"stdgates.inc\"; qubit q; h q;");
}

#[test]
fn malformed_directive_is_reported_with_its_offset() {
    let files = [("/m/main.qasm", "OPENQASM 3.0; include gates;")];
    match expand(&files, "/m/main.qasm").unwrap_err() {
        IncludeError::InvalidDirective { path, offset } => {
            assert_eq!(path, "/m/main.qasm");
            assert_eq!(offset, 14);
        }
        other => panic!("expected an invalid directive, got {other:?}"),
    }
}

#[test]
fn missing_file_is_an_io_error() {
    let files = [("/q/main.qasm", "OPENQASM 3.0; include \"absent.inc\";")];
    let error = expand(&files, "/q/main.qasm").unwrap_err();
    assert_eq!(error.describe(), "failed to read include /q/absent.inc: not found");
}

#[test]
fn same_file_may_be_included_twice_in_sequence() {
    let files = [
        ("/r/g.inc", "gate g q { x q; }"),
        ("/r/main.qasm", "OPENQASM 3.0; include \"g.inc\"; include \"g.inc\";"),
    ];
    let expanded = expand(&files, "/r/main.qasm").unwrap();
    assert_eq!(expanded.matches("gate g q").count(), 2);
}

#[test]
fn invalid_directive_error_text() {
    let error = IncludeError::InvalidDirective { path: "f.qasm".to_string(), offset: 42 };
    assert_eq!(error.describe(), "invalid include directive in f.qasm at byte 42");
}

#[test]
fn version_header_is_stripped_only_when_present() {
    assert_eq!(strip_version_header("OPENQASM 3.0; qubit q;"), " qubit q;");
    assert_eq!(strip_version_header("gate g q { x q; }"), "gate g q { x q; }");
}

#[test]
fn a_file_with_only_standard_includes_is_kept_as_it_is() {
    let text = "OPENQASM 3.0; include \"stdgates.inc\"; qubit q; h q;";
    let mut expander = IncludeExpander::new();
    expander.open("/m.qasm".to_string()).unwrap();
    match expander.read(text.to_string()) {
        IncludeStep::Done(s) => assert_eq!(s, text),
        _ => panic!("expected the file to be done"),
    }
}

#[test]
fn the_first_local_directive_is_loaded() {
    let mut expander = IncludeExpander::new();
    expander.open("/d/m.qasm".to_string()).unwrap();
    match expander.read("include \"stdgates.inc\"; include \"a.inc\"; include \"b.inc\";".to_string()) {
        IncludeStep::Load { from, target } => {
            assert_eq!(from, "/d/m.qasm");
            assert_eq!(target, "a.inc");
        }
        _ => panic!("expected a load"),
    }
}

#[test]
fn a_malformed_directive_fails_at_its_offset() {
    let mut expander = IncludeExpander::new();
    expander.open("/d/m.qasm".to_string()).unwrap();
    match expander.read("qubit q; include q;".to_string()) {
        IncludeStep::Failed(IncludeError::InvalidDirective { path, offset }) => {
            assert_eq!(path, "/d/m.qasm");
            assert_eq!(offset, 9);
        }
        _ => panic!("expected a failure"),
    }
}
