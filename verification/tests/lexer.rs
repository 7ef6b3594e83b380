use qasm_rs::lexer::{lex, Token};

#[test]
fn lex_bell_pair() {
    let source = r#"
        OPENQASM 3.0;
        qubit[2] q;
        bit[2] c;
        h q[0];
        cx q[0], q[1];
        c = measure q;
        "#;

    let (tokens, errors) = lex(source);
    assert!(errors.is_empty());
    assert_eq!(tokens[0].node, Token::OpenQasm);
    assert!(matches!(&tokens[1].node, Token::FloatLiteral(text) if text.parse::<f64>().unwrap() == 3.0));
    assert!(tokens[0].span.start < tokens[0].span.end);
}

#[test]
fn lex_comments() {
    let source = "qubit q; // this is a comment\n/* block */ bit c;";
    let (tokens, errors) = lex(source);
    assert!(errors.is_empty());
    assert_eq!(tokens[0].node, Token::Qubit);
    assert_eq!(tokens[3].node, Token::Bit);
}

#[test]
fn lex_error_collected() {
    let source = "qubit # q;";
    let (tokens, errors) = lex(source);
    assert_eq!(errors.len(), 1);
    assert_eq!(tokens.len(), 3);
}

#[test]
fn lex_spans_cover_their_lexemes() {
    let source = "include \"gates.inc\"; x <= 10;";
    let (tokens, errors) = lex(source);
    assert!(errors.is_empty());
    assert_eq!(tokens[0].node, Token::Include);
    assert_eq!(&source[tokens[0].span.start..tokens[0].span.end], "include");
    assert_eq!(tokens[1].node, Token::StringLiteral("gates.inc".to_string()));
    assert_eq!(tokens[2].node, Token::Semicolon);
    assert_eq!(tokens[4].node, Token::LessEquals);
    assert_eq!(tokens[5].node, Token::IntLiteral(10));
}

#[test]
fn lex_takes_the_longest_match() {
    let (tokens, errors) = lex("a==b 1.5e x2 -> 99999999999999999999 \"open");
    assert_eq!(errors.len(), 2);
    assert_eq!(errors[0].start, 16);
    assert_eq!(errors[0].end, 36);
    assert_eq!(errors[1].start, 37);
    assert_eq!(errors[1].end, 38);
    assert_eq!(tokens[0].node, Token::Ident("a".into()));
    assert_eq!(tokens[1].node, Token::DoubleEquals);
    assert_eq!(tokens[2].node, Token::Ident("b".into()));
    assert_eq!(tokens[3].node, Token::FloatLiteral("1.5".into()));
    assert_eq!(tokens[4].node, Token::Ident("e".into()));
    assert_eq!(tokens[5].node, Token::Ident("x2".into()));
    assert_eq!(tokens[6].node, Token::Arrow);
    assert_eq!(tokens[7].node, Token::Ident("open".into()));
    assert_eq!(tokens.len(), 8);
}

#[test]
fn tokens_describe_themselves() {
    assert_eq!(Token::Ident("q".to_string()).describe(), "Ident(\"q\")");
    assert_eq!(Token::IntLiteral(42).describe(), "IntLiteral(42)");
    assert_eq!(Token::Semicolon.describe(), "Semicolon");
    assert_eq!(Token::FloatLiteral("1.5".to_string()).describe(), "FloatLiteral(1.5)");
}
