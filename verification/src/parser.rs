//! Recursive-descent parser with Pratt expression parsing.

use vstd::prelude::*;
use vstd::string::*;

use crate::ast::{
    AssignOp, BinOp, ClassicalQualifier, ClassicalType, CompareOp, ConstKind, Expr, ForRange,
    GateModifier, GateOperand, Program, Stmt,
};
use crate::grammar::{
    at_tok, node_at, prev_span, read_args, read_barrier, read_block, read_block_items, read_call_rest,
    read_classical_decl, read_compare_tail, read_comparison, read_decl, read_delay, read_expr, read_expr_bp,
    read_for, read_function_def, read_gate_body_stmt, read_gate_def, read_ident, read_ident_list, read_if,
    read_include, read_measure, read_modified_call, read_modifiers, read_more_exprs, read_more_idents,
    read_more_operands, read_operand, read_operand_list, read_optional_params, read_optional_size,
    read_prefix, read_program, read_program_items, read_recovering, read_recovering_items, read_reset,
    read_binop_tail, read_stmt, read_tok, read_typed_params, read_version, read_while, recovering_start,
    sync_end, tok_span, type_at, Parsed, read_ident_stmt, lemma_block_items_step, lemma_recovering_step,
};
use crate::lexer::{self, is_unit_token, Token};
use crate::span::{Span, Spanned};
use crate::syntax::{
    StmtModel,
    expr_model, exprs_model, lemma_expr_model_span, lemma_exprs_model_push, lemma_stmts_model_push,
    modifier_model, modifiers_model, names_model, operand_model, operands_model, stmt_model, stmts_model,
    typed_names_model,
};
use crate::text::{decimal_text, float_display, push_u64, string_of, u64_to_string};

verus! {

broadcast use vstd::seq::group_seq_axioms;

pub struct Parser {
    tokens: Vec<Spanned<Token>>,
    pos: usize,
    source_len: usize,
}

#[derive(Debug)]
pub struct ParseError {
    pub message: String,
    pub span: Span,
}

/// `new` is `old` with the same tokens and a cursor that has not moved back.
pub closed spec fn moved_on(old: Parser, new: Parser) -> bool {
    &&& new.tokens == old.tokens
    &&& new.source_len == old.source_len
    &&& old.pos <= new.pos <= new.tokens@.len()
}

/// `new` is `old` with the same tokens and a cursor that has moved forward.
pub closed spec fn moved_past(old: Parser, new: Parser) -> bool {
    &&& moved_on(old, new)
    &&& old.pos < new.pos
}

/// What a parsing step returned agrees with what the grammar reads from
/// where it started: on success the value (by `model`) and the position
/// after it; on failure the position of the failing token, the error's
/// message is the grammar's, and its span is that token's (or the end of
/// the source).
pub open spec fn reads_as<T, M>(r: Result<T, ParseError>, fin: Parser, g: Parsed<M>, model: spec_fn(T) -> M) -> bool {
    match g {
        Parsed::Done(m, q) => match r {
            Ok(x) => model(x) == m && fin.position() == q,
            Err(_) => false,
        },
        Parsed::Failed(q, msg) => match r {
            Ok(_) => false,
            Err(e) => fin.position() == q && e.message@ == msg && e.span == tok_span(fin.toks(), q, fin.source_end()),
        },
    }
}

impl Parser {
    pub closed spec fn wf(self) -> bool {
        self.pos <= self.tokens@.len()
    }

    /// The tokens being parsed.
    pub closed spec fn toks(self) -> Seq<Spanned<Token>> {
        self.tokens@
    }

    /// The position of the next token.
    pub closed spec fn position(self) -> int {
        self.pos as int
    }

    /// The length of the source, where an error at its end is reported.
    pub closed spec fn source_end(self) -> usize {
        self.source_len
    }

    /// Every token has been consumed.
    pub closed spec fn at_eof(self) -> bool {
        self.pos == self.tokens@.len()
    }

    /// Number of tokens not yet consumed.
    pub closed spec fn remaining(self) -> int {
        self.tokens@.len() - self.pos
    }

    /// A parser at the start of the tokens of `source`, which the lexer
    /// reads from it.
    pub fn new(source: &str) -> (r: Self)
        ensures
            r.wf(),
            r.position() == 0,
            r.source_end() == source.spec_bytes().len() as usize,
            exists|errs: Seq<Span>| lexer::lexed(source.spec_bytes(), r.toks(), errs),
    {
        let (tokens, lex_errors) = lexer::lex(source);
        let r = Parser { tokens, pos: 0, source_len: source.len() };
        assert(lexer::lexed(source.spec_bytes(), r.toks(), lex_errors@));
        r
    }

    /// A parser at the start of `tokens`, lexed from a source of
    /// `source_len` bytes.
    pub(crate) fn from_tokens(tokens: Vec<Spanned<Token>>, source_len: usize) -> (r: Self)
        ensures
            r.wf(),
            r.position() == 0,
            r.toks() == tokens@,
            r.source_end() == source_len,
    {
        Parser { tokens, pos: 0, source_len }
    }

    // ── Helpers ──────────────────────────────────────────────

    fn peek(&self) -> (r: Option<&Token>)
        requires
            self.wf(),
        ensures
            self.pos < self.tokens@.len() ==> r == Some(&self.tokens@[self.pos as int].node),
            self.pos >= self.tokens@.len() ==> r is None,
    {
        if self.pos < self.tokens.len() {
            Some(&self.tokens[self.pos].node)
        } else {
            None
        }
    }

    fn peek_span(&self) -> (r: Span)
        requires
            self.wf(),
        ensures
            r == tok_span(self.tokens@, self.pos as int, self.source_len),
    {
        if self.pos < self.tokens.len() {
            self.tokens[self.pos].span
        } else {
            Span::new(self.source_len, self.source_len)
        }
    }

    fn advance(&mut self)
        requires
            old(self).wf(),
        ensures
            moved_on(*old(self), *final(self)),
            old(self).pos < old(self).tokens@.len() ==> final(self).pos == old(self).pos + 1,
    {
        if self.pos < self.tokens.len() {
            self.pos = self.pos + 1;
        }
    }

    fn prev_span(&self) -> (r: Span)
        requires
            self.wf(),
        ensures
            r == prev_span(self.tokens@, self.pos as int),
    {
        if self.pos > 0 {
            self.tokens[self.pos - 1].span
        } else {
            Span::new(0, 0)
        }
    }

    fn at_end(&self) -> (r: bool)
        ensures
            r == (self.pos >= self.tokens@.len()),
    {
        self.pos >= self.tokens.len()
    }

    fn error(&self, msg: &str) -> (r: ParseError)
        requires
            self.wf(),
        ensures
            r.message@ == msg@,
            r.span == tok_span(self.tokens@, self.pos as int, self.source_len),
    {
        ParseError { message: string_of(msg), span: self.peek_span() }
    }

    fn check(&self, expected: &Token) -> (r: bool)
        requires
            self.wf(),
            is_unit_token(*expected),
        ensures
            r == at_tok(self.tokens@, self.pos as int, *expected),
    {
        if self.pos < self.tokens.len() {
            self.tokens[self.pos].node.same(expected)
        } else {
            false
        }
    }

    fn expect(&mut self, expected: &Token) -> (r: Result<Span, ParseError>)
        requires
            old(self).wf(),
            is_unit_token(*expected),
        ensures
            moved_on(*old(self), *final(self)),
            reads_as(r, *final(self), read_tok(old(self).tokens@, old(self).pos as int, *expected), |s: Span| s),
    {
        if self.pos < self.tokens.len() {
            if self.tokens[self.pos].node.same(expected) {
                let span = self.tokens[self.pos].span;
                self.pos = self.pos + 1;
                Ok(span)
            } else {
                let mut message = string_of("expected ");
                message.append(expected.describe().as_str());
                message.append(", found ");
                message.append(self.tokens[self.pos].node.describe().as_str());
                Err(ParseError { message, span: self.tokens[self.pos].span })
            }
        } else {
            let mut message = string_of("expected ");
            message.append(expected.describe().as_str());
            message.append(", found ");
            message.append("end of file");
            Err(ParseError { message, span: Span::new(self.source_len, self.source_len) })
        }
    }

    fn expect_ident(&mut self) -> (r: Result<(String, Span), ParseError>)
        requires
            old(self).wf(),
        ensures
            moved_on(*old(self), *final(self)),
            reads_as(
                r,
                *final(self),
                read_ident(old(self).tokens@, old(self).pos as int),
                |x: (String, Span)| (x.0@, x.1),
            ),
    {
        if self.pos < self.tokens.len() {
            match &self.tokens[self.pos].node {
                Token::Ident(name) => {
                    let name = name.clone();
                    let span = self.tokens[self.pos].span;
                    self.pos = self.pos + 1;
                    Ok((name, span))
                },
                other => {
                    let mut message = string_of("expected identifier, found ");
                    message.append(other.describe().as_str());
                    Err(ParseError { message, span: self.tokens[self.pos].span })
                },
            }
        } else {
            let mut message = string_of("expected identifier, found ");
            message.append("end of file");
            Err(ParseError { message, span: Span::new(self.source_len, self.source_len) })
        }
    }

    /// An integer literal, or the error `msg`.
    fn expect_int(&mut self, msg: &str) -> (r: Result<u64, ParseError>)
        requires
            old(self).wf(),
        ensures
            moved_on(*old(self), *final(self)),
            reads_as(
                r,
                *final(self),
                crate::grammar::read_int(old(self).tokens@, old(self).pos as int, msg@),
                |n: u64| n,
            ),
    {
        let n = match self.peek() {
            Some(Token::IntLiteral(n)) => *n,
            _ => {
                return Err(self.error(msg));
            },
        };
        self.advance();
        Ok(n)
    }

    // ── Top-level ───────────────────────────────────────────

    /// Parse a whole program, stopping at the first syntax error.
    pub fn parse(&mut self) -> (r: Result<Program, ParseError>)
        requires
            old(self).wf(),
        ensures
            moved_on(*old(self), *final(self)),
            r is Ok ==> final(self).at_eof(),
            match read_program(old(self).toks(), old(self).position()) {
                Parsed::Done((version, stmts), q) => match r {
                    Ok(prog) => stmts_model(prog.statements@) == stmts && final(self).position() == q
                        && prog.version@ == version,
                    Err(_) => false,
                },
                Parsed::Failed(q, msg) => match r {
                    Ok(_) => false,
                    Err(e) => final(self).position() == q && e.message@ == msg && e.span == tok_span(
                        final(self).toks(),
                        q,
                        final(self).source_end(),
                    ),
                },
            },
    {
        let ghost toks = self.tokens@;
        let version = self.parse_version()?;
        let ghost q0 = self.pos as int;
        let ghost vspec = match read_version(toks, old(self).pos as int) {
            Parsed::Done(v, _) => v,
            Parsed::Failed(_, _) => Seq::empty(),
        };
        let mut statements: Vec<Stmt> = Vec::new();
        while !self.at_end()
            invariant
                moved_on(*old(self), *self),
                toks == self.tokens@,
                read_version(toks, old(self).pos as int) == Parsed::Done(vspec, q0),
                version@ == vspec,
                read_program_items(toks, stmts_model(statements@), self.pos as int) == read_program_items(
                    toks,
                    seq![],
                    q0,
                ),
            decreases self.tokens@.len() - self.pos,
        {
            let stmt = match self.parse_program_item(Ghost(stmts_model(statements@))) {
                Ok(stmt) => stmt,
                Err(e) => {
                    return Err(e);
                },
            };
            proof {
                lemma_stmts_model_push(statements@, stmt);
            }
            statements.push(stmt);
        }
        assert(read_program_items(toks, stmts_model(statements@), self.pos as int) == Parsed::Done(
            stmts_model(statements@),
            self.pos as int,
        )) by {
            reveal(read_program_items);
        }
        Ok(Program { version, statements })
    }

    /// Parse a whole program, recovering after each syntax error at the next
    /// `;` so that independent errors are all reported.
    pub fn parse_recovering(&mut self) -> (r: Result<Program, Vec<ParseError>>)
        requires
            old(self).wf(),
        ensures
            moved_on(*old(self), *final(self)),
            final(self).at_eof(),
            ({
                let (stmts, errs) = read_recovering(old(self).toks(), old(self).position());
                match r {
                    Ok(prog) => {
                        &&& errs.len() == 0
                        &&& stmts_model(prog.statements@) == stmts
                        &&& read_version(old(self).toks(), old(self).position()) matches Parsed::Done(v, _)
                        &&& prog.version@ == v
                    },
                    Err(errors) => errs.len() > 0 && errors@.len() == errs.len() && forall|k: int|
                        0 <= k < errs.len() ==> (#[trigger] errors@[k]).message@ == errs[k].1 && errors@[k].span
                            == tok_span(old(self).toks(), errs[k].0, old(self).source_end()),
                }
            }),
    {
        let ghost toks = self.tokens@;
        let ghost src = self.source_len;
        let mut errors: Vec<ParseError> = Vec::new();
        let ghost mut errs: Seq<(int, Seq<char>)> = seq![];
        let version = match self.parse_version() {
            Ok(v) => v,
            Err(e) => {
                proof {
                    errs = seq![(self.pos as int, e.message@)];
                }
                errors.push(e);
                self.synchronize();
                String::new()
            },
        };
        let mut statements: Vec<Stmt> = Vec::new();
        assert(stmts_model(statements@) =~= seq![]);
        while !self.at_end()
            invariant
                moved_on(*old(self), *self),
                toks == self.tokens@,
                src == self.source_len,
                errors@.len() == errs.len(),
                errs.len() > 0 || (read_version(toks, old(self).pos as int) matches Parsed::Done(v, _) && version@ == v),
                forall|k: int|
                    0 <= k < errs.len() ==> (#[trigger] errors@[k]).message@ == errs[k].1 && errors@[k].span == tok_span(
                        toks,
                        errs[k].0,
                        src,
                    ),
                read_recovering_items(toks, stmts_model(statements@), errs, self.pos as int) == read_recovering(
                    toks,
                    old(self).pos as int,
                ),
            decreases self.tokens@.len() - self.pos,
        {
            let (item, Ghost(epos)) = self.parse_stmt_recovering(Ghost(stmts_model(statements@)), Ghost(errs));
            match item {
                Ok(stmt) => {
                    proof {
                        lemma_stmts_model_push(statements@, stmt);
                    }
                    statements.push(stmt)
                },
                Err(e) => {
                    let ghost old_errors = errors@;
                    errors.push(e);
                    proof {
                        errs = errs.push(epos);
                        assert forall|k: int| 0 <= k < errs.len() implies (#[trigger] errors@[k]).message@ == errs[k].1
                            && errors@[k].span == tok_span(toks, errs[k].0, src) by {
                            if k < errs.len() - 1 {
                                assert(errors@[k] == old_errors[k]);
                            }
                        }
                    }
                },
            }
        }
        assert(read_recovering_items(toks, stmts_model(statements@), errs, self.pos as int) == (
            stmts_model(statements@),
            errs,
        )) by {
            reveal(read_recovering_items);
        }
        if errors.len() > 0 {
            Err(errors)
        } else {
            Ok(Program { version, statements })
        }
    }

    /// One statement of a program, after the statements `acc`.
    fn parse_program_item(&mut self, Ghost(acc): Ghost<Seq<StmtModel>>) -> (r: Result<Stmt, ParseError>)
        requires
            old(self).wf(),
            old(self).pos < old(self).tokens@.len(),
        ensures
            moved_on(*old(self), *final(self)),
            match r {
                Ok(s) => old(self).pos < final(self).pos && read_program_items(old(self).tokens@, acc, old(self).pos as int)
                    == read_program_items(old(self).tokens@, acc.push(stmt_model(s)), final(self).pos as int),
                Err(e) => read_program_items(old(self).tokens@, acc, old(self).pos as int) == Parsed::<
                    Seq<StmtModel>,
                >::Failed(final(self).pos as int, e.message@) && e.span == tok_span(
                    old(self).tokens@,
                    final(self).pos as int,
                    old(self).source_len,
                ),
            },
    {
        reveal(read_program_items);
        self.parse_stmt()
    }

    /// One statement of a program read with recovery: on failure, the
    /// position of the failure, with the cursor moved past the next `;`.
    fn parse_stmt_recovering(
        &mut self,
        Ghost(stmts): Ghost<Seq<StmtModel>>,
        Ghost(errs): Ghost<Seq<(int, Seq<char>)>>,
    ) -> (r: (Result<Stmt, ParseError>, Ghost<(int, Seq<char>)>))
        requires
            old(self).wf(),
            old(self).pos < old(self).tokens@.len(),
        ensures
            moved_on(*old(self), *final(self)),
            old(self).pos < final(self).pos,
            match r.0 {
                Ok(s) => read_recovering_items(old(self).tokens@, stmts, errs, old(self).pos as int)
                    == read_recovering_items(old(self).tokens@, stmts.push(stmt_model(s)), errs, final(self).pos as int),
                Err(e) => read_recovering_items(old(self).tokens@, stmts, errs, old(self).pos as int)
                    == read_recovering_items(old(self).tokens@, stmts, errs.push(r.1@), final(self).pos as int)
                    && e.message@ == r.1@.1 && e.span == tok_span(old(self).tokens@, r.1@.0, old(self).source_len),
            },
    {
        let ghost p = self.pos as int;
        proof {
            lemma_recovering_step(self.tokens@, stmts, errs, p);
        }
        match self.parse_stmt() {
            Ok(stmt) => (Ok(stmt), Ghost((0, seq![]))),
            Err(e) => {
                let ghost epos = (self.pos as int, e.message@);
                self.synchronize();
                (Err(e), Ghost(epos))
            },
        }
    }

    /// Skip tokens up to and including the next `;`, consuming at least one
    /// token when any is left.
    fn synchronize(&mut self)
        requires
            old(self).wf(),
        ensures
            moved_on(*old(self), *final(self)),
            final(self).pos == sync_end(old(self).tokens@, old(self).pos as int),
            old(self).pos < old(self).tokens@.len() ==> old(self).pos < final(self).pos,
    {
        while self.pos < self.tokens.len()
            invariant
                moved_on(*old(self), *self),
                sync_end(self.tokens@, self.pos as int) == sync_end(old(self).tokens@, old(self).pos as int),
            decreases self.tokens@.len() - self.pos,
        {
            let is_semi = self.tokens[self.pos].node.same(&Token::Semicolon);
            self.pos = self.pos + 1;
            if is_semi {
                return;
            }
        }
    }

    fn parse_version(&mut self) -> (r: Result<String, ParseError>)
        requires
            old(self).wf(),
        ensures
            moved_on(*old(self), *final(self)),
            match read_version(old(self).tokens@, old(self).pos as int) {
                Parsed::Done(v, q) => match r {
                    Ok(text) => final(self).pos == q && text@ == v,
                    Err(_) => false,
                },
                Parsed::Failed(q, msg) => match r {
                    Ok(_) => false,
                    Err(e) => final(self).pos == q && e.message@ == msg && e.span == tok_span(
                        final(self).tokens@,
                        q,
                        final(self).source_len,
                    ),
                },
            },
    {
        self.expect(&Token::OpenQasm)?;
        let ver = match self.peek() {
            Some(Token::FloatLiteral(v)) => float_display(v.as_str()),
            Some(Token::IntLiteral(v)) => u64_to_string(*v),
            _ => {
                return Err(self.error("expected version number after OPENQASM"));
            },
        };
        self.advance();
        self.expect(&Token::Semicolon)?;
        Ok(ver)
    }

    // ── Statements ──────────────────────────────────────────

    fn parse_stmt(&mut self) -> (r: Result<Stmt, ParseError>)
        requires
            old(self).wf(),
        ensures
            moved_on(*old(self), *final(self)),
            r is Ok ==> old(self).pos < final(self).pos,
            reads_as(r, *final(self), read_stmt(old(self).tokens@, old(self).pos as int), |s: Stmt| stmt_model(s)),
        decreases old(self).remaining(), 30nat,
    {
        match self.peek() {
            Some(Token::Include) => self.parse_include(),
            Some(Token::Qubit) => self.parse_qubit_decl(),
            Some(Token::Bit) => self.parse_bit_decl(),
            Some(Token::Qreg) => self.parse_reg_decl(true),
            Some(Token::Creg) => self.parse_reg_decl(false),
            Some(Token::Const) => self.parse_classical_decl(Some(ClassicalQualifier::Const)),
            Some(Token::Input) => self.parse_classical_decl(Some(ClassicalQualifier::Input)),
            Some(Token::Output) => self.parse_classical_decl(Some(ClassicalQualifier::Output)),
            Some(Token::Int)
            | Some(Token::UInt)
            | Some(Token::Float)
            | Some(Token::Angle)
            | Some(Token::Bool) => self.parse_classical_decl(None),
            Some(Token::Gate) => self.parse_gate_def(),
            Some(Token::Def) => self.parse_function_def(),
            Some(Token::Measure) => self.parse_measure_stmt(),
            Some(Token::Reset) => self.parse_reset_stmt(),
            Some(Token::Barrier) => self.parse_barrier_stmt(),
            Some(Token::Delay) => self.parse_delay_stmt(),
            Some(Token::If) => self.parse_if_stmt(),
            Some(Token::For) => self.parse_for_stmt(),
            Some(Token::While) => self.parse_while_stmt(),
            Some(Token::Ctrl) | Some(Token::NegCtrl) | Some(Token::Inv) | Some(Token::Pow) => {
                self.parse_modified_gate_call()
            },
            Some(Token::Ident(_)) => self.parse_ident_stmt(),
            _ => Err(self.error("unexpected token at statement level")),
        }
    }

    fn parse_include(&mut self) -> (r: Result<Stmt, ParseError>)
        requires
            old(self).wf(),
            old(self).pos < old(self).tokens@.len(),
        ensures
            moved_on(*old(self), *final(self)),
            r is Ok ==> old(self).pos < final(self).pos,
            reads_as(r, *final(self), read_include(old(self).tokens@, old(self).pos as int), |s: Stmt| stmt_model(s)),
    {
        let start = self.peek_span();
        self.advance();  // consume `include`
        let path = match self.peek() {
            Some(Token::StringLiteral(p)) => p.clone(),
            _ => {
                return Err(self.error("expected include path string"));
            },
        };
        self.advance();
        let end = self.expect(&Token::Semicolon)?;
        Ok(Stmt::Include { path, span: Span::merge(&start, &end) })
    }

    fn parse_qubit_decl(&mut self) -> (r: Result<Stmt, ParseError>)
        requires
            old(self).wf(),
            old(self).pos < old(self).tokens@.len(),
        ensures
            moved_on(*old(self), *final(self)),
            r is Ok ==> old(self).pos < final(self).pos,
            reads_as(
                r,
                *final(self),
                read_decl(old(self).tokens@, old(self).pos as int, true, false),
                |s: Stmt| stmt_model(s),
            ),
    {
        let start = self.peek_span();
        self.advance();  // consume `qubit`
        let size = self.parse_optional_size()?;
        let (name, _) = self.expect_ident()?;
        let end = self.expect(&Token::Semicolon)?;
        Ok(Stmt::QubitDecl { name, size, span: Span::merge(&start, &end) })
    }

    fn parse_bit_decl(&mut self) -> (r: Result<Stmt, ParseError>)
        requires
            old(self).wf(),
            old(self).pos < old(self).tokens@.len(),
        ensures
            moved_on(*old(self), *final(self)),
            r is Ok ==> old(self).pos < final(self).pos,
            reads_as(
                r,
                *final(self),
                read_decl(old(self).tokens@, old(self).pos as int, false, false),
                |s: Stmt| stmt_model(s),
            ),
    {
        let start = self.peek_span();
        self.advance();  // consume `bit`
        let size = self.parse_optional_size()?;
        let (name, _) = self.expect_ident()?;
        let end = self.expect(&Token::Semicolon)?;
        Ok(Stmt::BitDecl { name, size, span: Span::merge(&start, &end) })
    }

    /// Legacy `qreg name[size];` and `creg name[size];`.
    fn parse_reg_decl(&mut self, quantum: bool) -> (r: Result<Stmt, ParseError>)
        requires
            old(self).wf(),
            old(self).pos < old(self).tokens@.len(),
        ensures
            moved_on(*old(self), *final(self)),
            r is Ok ==> old(self).pos < final(self).pos,
            reads_as(
                r,
                *final(self),
                read_decl(old(self).tokens@, old(self).pos as int, quantum, true),
                |s: Stmt| stmt_model(s),
            ),
    {
        let start = self.peek_span();
        self.advance();  // consume `qreg` / `creg`
        let (name, _) = self.expect_ident()?;
        let size = self.parse_optional_size()?;
        let end = self.expect(&Token::Semicolon)?;
        let span = Span::merge(&start, &end);
        if quantum {
            Ok(Stmt::QubitDecl { name, size, span })
        } else {
            Ok(Stmt::BitDecl { name, size, span })
        }
    }

    fn parse_classical_type(&mut self) -> (r: Option<ClassicalType>)
        requires
            old(self).wf(),
        ensures
            moved_on(*old(self), *final(self)),
            r == type_at(old(self).tokens@, old(self).pos as int),
            r is Some ==> final(self).pos == old(self).pos + 1,
            r is None ==> final(self).pos == old(self).pos,
    {
        let ty = match self.peek() {
            Some(Token::Int) => ClassicalType::Int,
            Some(Token::UInt) => ClassicalType::UInt,
            Some(Token::Float) => ClassicalType::Float,
            Some(Token::Angle) => ClassicalType::Angle,
            Some(Token::Bool) => ClassicalType::Bool,
            _ => {
                return None;
            },
        };
        self.advance();
        Some(ty)
    }

    fn parse_classical_decl(&mut self, qualifier: Option<ClassicalQualifier>) -> (r: Result<
        Stmt,
        ParseError,
    >)
        requires
            old(self).wf(),
            old(self).pos < old(self).tokens@.len(),
        ensures
            moved_on(*old(self), *final(self)),
            r is Ok ==> old(self).pos < final(self).pos,
            reads_as(
                r,
                *final(self),
                read_classical_decl(old(self).tokens@, old(self).pos as int, qualifier),
                |s: Stmt| stmt_model(s),
            ),
        decreases old(self).remaining(), 25nat,
    {
        let start = self.peek_span();
        if qualifier.is_some() {
            self.advance();  // consume the qualifier
        }
        let ty = match self.parse_classical_type() {
            Some(ty) => ty,
            None => {
                return Err(self.error("expected classical type"));
            },
        };
        let (name, _) = self.expect_ident()?;
        let init = if self.check(&Token::Equals) {
            self.advance();
            Some(self.parse_expr()?)
        } else {
            None
        };
        let end = self.expect(&Token::Semicolon)?;
        Ok(Stmt::ClassicalDecl { qualifier, ty, name, init, span: Span::merge(&start, &end) })
    }

    fn parse_optional_size(&mut self) -> (r: Result<Option<u64>, ParseError>)
        requires
            old(self).wf(),
        ensures
            moved_on(*old(self), *final(self)),
            reads_as(
                r,
                *final(self),
                read_optional_size(old(self).tokens@, old(self).pos as int),
                |n: Option<u64>| n,
            ),
    {
        if self.check(&Token::LBracket) {
            self.advance();
            let n = self.expect_int("expected integer size in brackets")?;
            self.expect(&Token::RBracket)?;
            Ok(Some(n))
        } else {
            Ok(None)
        }
    }

    // ── Classical control flow ──────────────────────────────

    fn parse_if_stmt(&mut self) -> (r: Result<Stmt, ParseError>)
        requires
            old(self).wf(),
            old(self).pos < old(self).tokens@.len(),
        ensures
            moved_on(*old(self), *final(self)),
            r is Ok ==> old(self).pos < final(self).pos,
            reads_as(r, *final(self), read_if(old(self).tokens@, old(self).pos as int), |s: Stmt| stmt_model(s)),
        decreases old(self).remaining(), 25nat,
    {
        let start = self.peek_span();
        self.advance();  // consume `if`
        self.expect(&Token::LParen)?;
        let condition = self.parse_expr()?;
        self.expect(&Token::RParen)?;
        let then_body = self.parse_block()?;
        let else_body = if self.check(&Token::Else) {
            self.advance();
            Some(self.parse_block()?)
        } else {
            None
        };
        let end = self.prev_span();
        Ok(Stmt::If { condition, then_body, else_body, span: Span::merge(&start, &end) })
    }

    fn parse_for_stmt(&mut self) -> (r: Result<Stmt, ParseError>)
        requires
            old(self).wf(),
            old(self).pos < old(self).tokens@.len(),
        ensures
            moved_on(*old(self), *final(self)),
            r is Ok ==> old(self).pos < final(self).pos,
            reads_as(r, *final(self), read_for(old(self).tokens@, old(self).pos as int), |s: Stmt| stmt_model(s)),
        decreases old(self).remaining(), 25nat,
    {
        let start = self.peek_span();
        self.advance();  // consume `for`
        // `for int i in [start:end] { ... }`
        let var_ty = match self.parse_classical_type() {
            Some(ty) => ty,
            None => {
                return Err(self.error("expected type in for loop"));
            },
        };
        let (var_name, _) = self.expect_ident()?;
        self.expect(&Token::In)?;
        // Range: [start:end] or [start:step:end]
        self.expect(&Token::LBracket)?;
        let range_start = self.parse_expr()?;
        self.expect(&Token::Colon)?;
        let second = self.parse_expr()?;
        let range = if self.check(&Token::Colon) {
            self.advance();
            let third = self.parse_expr()?;
            ForRange { start: range_start, end: third, step: Some(second) }
        } else {
            ForRange { start: range_start, end: second, step: None }
        };
        self.expect(&Token::RBracket)?;
        let body = self.parse_block()?;
        let end = self.prev_span();
        Ok(Stmt::For { var_name, var_ty, range, body, span: Span::merge(&start, &end) })
    }

    fn parse_while_stmt(&mut self) -> (r: Result<Stmt, ParseError>)
        requires
            old(self).wf(),
            old(self).pos < old(self).tokens@.len(),
        ensures
            moved_on(*old(self), *final(self)),
            r is Ok ==> old(self).pos < final(self).pos,
            reads_as(r, *final(self), read_while(old(self).tokens@, old(self).pos as int), |s: Stmt| stmt_model(s)),
        decreases old(self).remaining(), 25nat,
    {
        let start = self.peek_span();
        self.advance();  // consume `while`
        self.expect(&Token::LParen)?;
        let condition = self.parse_expr()?;
        self.expect(&Token::RParen)?;
        let body = self.parse_block()?;
        let end = self.prev_span();
        Ok(Stmt::While { condition, body, span: Span::merge(&start, &end) })
    }

    /// Statements up to a `}` or the end; only gate calls when `gate_body`.
    #[verifier::rlimit(100)]
    fn parse_block_items(&mut self, gate_body: bool) -> (r: Result<Vec<Stmt>, ParseError>)
        requires
            old(self).wf(),
        ensures
            moved_on(*old(self), *final(self)),
            reads_as(
                r,
                *final(self),
                read_block_items(old(self).tokens@, seq![], old(self).pos as int, gate_body),
                |v: Vec<Stmt>| stmts_model(v@),
            ),
        decreases old(self).remaining(), 40nat,
    {
        let ghost toks = self.tokens@;
        let ghost p0 = self.pos as int;
        let mut stmts: Vec<Stmt> = Vec::new();
        assert(stmts_model(stmts@) =~= seq![]);
        while !self.check(&Token::RBrace) && !self.at_end()
            invariant
                moved_on(*old(self), *self),
                toks == self.tokens@,
                p0 == old(self).pos,
                read_block_items(toks, stmts_model(stmts@), self.pos as int, gate_body) == read_block_items(
                    toks,
                    seq![],
                    p0,
                    gate_body,
                ),
            decreases self.tokens@.len() - self.pos,
        {
            let ghost q = self.pos as int;
            proof {
                lemma_block_items_step(toks, stmts_model(stmts@), q, gate_body);
            }
            let item = if gate_body {
                self.parse_gate_body_stmt()
            } else {
                self.parse_stmt()
            };
            let s = match item {
                Ok(s) => s,
                Err(e) => {
                    return Err(e);
                },
            };
            proof {
                lemma_stmts_model_push(stmts@, s);
            }
            stmts.push(s);
        }
        Ok(stmts)
    }

    /// Parse a `{ stmt; stmt; ... }` block.
    fn parse_block(&mut self) -> (r: Result<Vec<Stmt>, ParseError>)
        requires
            old(self).wf(),
        ensures
            moved_on(*old(self), *final(self)),
            r is Ok ==> old(self).pos < final(self).pos,
            reads_as(
                r,
                *final(self),
                read_block(old(self).tokens@, old(self).pos as int),
                |v: Vec<Stmt>| stmts_model(v@),
            ),
        decreases old(self).remaining(), 26nat,
    {
        self.expect(&Token::LBrace)?;
        let stmts = self.parse_block_items(false)?;
        self.expect(&Token::RBrace)?;
        Ok(stmts)
    }

    // ── Gate and function definitions ───────────────────────

    fn parse_gate_def(&mut self) -> (r: Result<Stmt, ParseError>)
        requires
            old(self).wf(),
            old(self).pos < old(self).tokens@.len(),
        ensures
            moved_on(*old(self), *final(self)),
            r is Ok ==> old(self).pos < final(self).pos,
            reads_as(r, *final(self), read_gate_def(old(self).tokens@, old(self).pos as int), |s: Stmt| stmt_model(s)),
        decreases old(self).remaining(), 25nat,
    {
        let start = self.peek_span();
        self.advance();  // consume `gate`
        let (name, _) = self.expect_ident()?;
        // Optional classical parameters: `(theta, phi)`
        let params = if self.check(&Token::LParen) {
            self.advance();
            let list = self.parse_ident_list()?;
            self.expect(&Token::RParen)?;
            list
        } else {
            let none: Vec<String> = Vec::new();
            assert(names_model(none@) =~= seq![]);
            none
        };
        // Qubit parameters: `q` or `c, t`
        let qparams = self.parse_ident_list()?;
        // Body: `{ ... }`
        self.expect(&Token::LBrace)?;
        let body = self.parse_block_items(true)?;
        let end = self.expect(&Token::RBrace)?;
        Ok(Stmt::GateDef { name, params, qparams, body, span: Span::merge(&start, &end) })
    }

    fn parse_ident_list(&mut self) -> (r: Result<Vec<String>, ParseError>)
        requires
            old(self).wf(),
        ensures
            moved_on(*old(self), *final(self)),
            reads_as(
                r,
                *final(self),
                read_ident_list(old(self).tokens@, old(self).pos as int),
                |v: Vec<String>| names_model(v@),
            ),
    {
        let ghost toks = self.tokens@;
        let mut names: Vec<String> = Vec::new();
        if let Some(Token::Ident(_)) = self.peek() {
            let (name, _) = self.expect_ident()?;
            names.push(name);
            assert(names_model(names@) =~= seq![name@]);
            while self.check(&Token::Comma)
                invariant
                    moved_on(*old(self), *self),
                    toks == self.tokens@,
                    read_more_idents(toks, names_model(names@), self.pos as int) == read_ident_list(
                        toks,
                        old(self).pos as int,
                    ),
                decreases self.tokens@.len() - self.pos,
            {
                self.advance();
                let (name, _) = self.expect_ident()?;
                let ghost before = names@;
                names.push(name);
                assert(names_model(names@) =~= names_model(before).push(name@));
            }
        } else {
            assert(names_model(names@) =~= seq![]);
        }
        Ok(names)
    }

    fn parse_gate_body_stmt(&mut self) -> (r: Result<Stmt, ParseError>)
        requires
            old(self).wf(),
        ensures
            moved_on(*old(self), *final(self)),
            r is Ok ==> old(self).pos < final(self).pos,
            reads_as(
                r,
                *final(self),
                read_gate_body_stmt(old(self).tokens@, old(self).pos as int),
                |s: Stmt| stmt_model(s),
            ),
        decreases old(self).remaining(), 30nat,
    {
        match self.peek() {
            Some(Token::Ctrl) | Some(Token::NegCtrl) | Some(Token::Inv) | Some(Token::Pow) => {
                self.parse_modified_gate_call()
            },
            Some(Token::Ident(_)) => self.parse_gate_call_stmt(),
            _ => Err(self.error("only gate calls are allowed inside a gate body")),
        }
    }

    /// `type name, ...` parameters of a function definition.
    fn parse_typed_params(&mut self) -> (r: Result<Vec<(ClassicalType, String)>, ParseError>)
        requires
            old(self).wf(),
        ensures
            moved_on(*old(self), *final(self)),
            reads_as(
                r,
                *final(self),
                read_typed_params(old(self).tokens@, seq![], old(self).pos as int),
                |v: Vec<(ClassicalType, String)>| typed_names_model(v@),
            ),
    {
        let ghost toks = self.tokens@;
        let mut params: Vec<(ClassicalType, String)> = Vec::new();
        assert(typed_names_model(params@) =~= seq![]);
        loop
            invariant_except_break
                read_typed_params(toks, typed_names_model(params@), self.pos as int) == read_typed_params(
                    toks,
                    seq![],
                    old(self).pos as int,
                ),
            invariant
                moved_on(*old(self), *self),
                toks == self.tokens@,
            ensures
                read_typed_params(toks, seq![], old(self).pos as int) == Parsed::Done(
                    typed_names_model(params@),
                    self.pos as int,
                ),
            decreases self.tokens@.len() - self.pos,
        {
            let ty = match self.parse_classical_type() {
                Some(ty) => ty,
                None => {
                    return Err(self.error("expected parameter type"));
                },
            };
            let (param, _) = self.expect_ident()?;
            let ghost before = params@;
            params.push((ty, param));
            assert(typed_names_model(params@) =~= typed_names_model(before).push((ty, param@)));
            if self.check(&Token::Comma) {
                self.advance();
            } else {
                break;
            }
        }
        Ok(params)
    }

    /// `def name(type a, ...) -> type { return expr; }`
    fn parse_function_def(&mut self) -> (r: Result<Stmt, ParseError>)
        requires
            old(self).wf(),
            old(self).pos < old(self).tokens@.len(),
        ensures
            moved_on(*old(self), *final(self)),
            r is Ok ==> old(self).pos < final(self).pos,
            reads_as(
                r,
                *final(self),
                read_function_def(old(self).tokens@, old(self).pos as int),
                |s: Stmt| stmt_model(s),
            ),
        decreases old(self).remaining(), 25nat,
    {
        let start = self.peek_span();
        self.advance();  // consume `def`
        let (name, _) = self.expect_ident()?;
        self.expect(&Token::LParen)?;
        let params = if !self.check(&Token::RParen) {
            self.parse_typed_params()?
        } else {
            let none: Vec<(ClassicalType, String)> = Vec::new();
            assert(typed_names_model(none@) =~= seq![]);
            none
        };
        self.expect(&Token::RParen)?;
        self.expect(&Token::Arrow)?;
        let return_type = match self.parse_classical_type() {
            Some(ty) => ty,
            None => {
                return Err(self.error("expected return type"));
            },
        };
        self.expect(&Token::LBrace)?;
        self.expect(&Token::Return)?;
        let body = self.parse_expr()?;
        self.expect(&Token::Semicolon)?;
        let end = self.expect(&Token::RBrace)?;
        Ok(
            Stmt::FunctionDef {
                name,
                params,
                return_type,
                body,
                span: Span::merge(&start, &end),
            },
        )
    }

    // ── Gate calls ──────────────────────────────────────────

    fn parse_modified_gate_call(&mut self) -> (r: Result<Stmt, ParseError>)
        requires
            old(self).wf(),
        ensures
            moved_on(*old(self), *final(self)),
            r is Ok ==> old(self).pos < final(self).pos,
            reads_as(
                r,
                *final(self),
                read_modified_call(old(self).tokens@, old(self).pos as int),
                |s: Stmt| stmt_model(s),
            ),
        decreases old(self).remaining(), 25nat,
    {
        let start = self.peek_span();
        let modifiers = self.parse_gate_modifiers()?;
        self.parse_call_rest(start, modifiers)
    }

    /// A gate call after its modifiers: name, parameters, operands and `;`.
    fn parse_call_rest(&mut self, start: Span, modifiers: Vec<GateModifier>) -> (r: Result<Stmt, ParseError>)
        requires
            old(self).wf(),
        ensures
            moved_on(*old(self), *final(self)),
            r is Ok ==> old(self).pos < final(self).pos,
            reads_as(
                r,
                *final(self),
                read_call_rest(old(self).tokens@, start, modifiers_model(modifiers@), old(self).pos as int),
                |s: Stmt| stmt_model(s),
            ),
        decreases old(self).remaining(), 21nat,
    {
        let (name, _) = self.expect_ident()?;
        let params = self.parse_optional_params()?;
        let args = self.parse_operand_list()?;
        let end = self.expect(&Token::Semicolon)?;
        Ok(Stmt::GateCall { name, modifiers, params, args, span: Span::merge(&start, &end) })
    }

    fn parse_gate_modifiers(&mut self) -> (r: Result<Vec<GateModifier>, ParseError>)
        requires
            old(self).wf(),
        ensures
            moved_on(*old(self), *final(self)),
            reads_as(
                r,
                *final(self),
                read_modifiers(old(self).tokens@, seq![], old(self).pos as int),
                |v: Vec<GateModifier>| modifiers_model(v@),
            ),
        decreases old(self).remaining(), 20nat,
    {
        let ghost toks = self.tokens@;
        let mut mods: Vec<GateModifier> = Vec::new();
        assert(modifiers_model(mods@) =~= seq![]);
        loop
            invariant
                moved_on(*old(self), *self),
                toks == self.tokens@,
                read_modifiers(toks, modifiers_model(mods@), self.pos as int) == read_modifiers(
                    toks,
                    seq![],
                    old(self).pos as int,
                ),
            ensures
                moved_on(*old(self), *self),
                read_modifiers(toks, seq![], old(self).pos as int) == Parsed::Done(
                    modifiers_model(mods@),
                    self.pos as int,
                ),
            decreases self.tokens@.len() - self.pos,
        {
            let ghost q = self.pos as int;
            let ghost before = mods@;
            let is_ctrl = self.check(&Token::Ctrl);
            let is_negctrl = self.check(&Token::NegCtrl);
            if is_ctrl || is_negctrl {
                let span = self.peek_span();
                self.advance();
                let arg = if self.check(&Token::LParen) {
                    self.advance();
                    let e = self.parse_expr()?;
                    self.expect(&Token::RParen)?;
                    Some(e)
                } else {
                    None
                };
                let at = self.expect(&Token::At)?;
                if is_ctrl {
                    mods.push(GateModifier::Ctrl(arg, Span::merge(&span, &at)));
                } else {
                    mods.push(GateModifier::NegCtrl(arg, Span::merge(&span, &at)));
                }
                assert(modifiers_model(mods@) =~= modifiers_model(before).push(modifier_model(mods@.last())));
            } else if self.check(&Token::Inv) {
                let span = self.peek_span();
                self.advance();
                let at = self.expect(&Token::At)?;
                mods.push(GateModifier::Inv(Span::merge(&span, &at)));
                assert(modifiers_model(mods@) =~= modifiers_model(before).push(modifier_model(mods@.last())));
            } else if self.check(&Token::Pow) {
                let span = self.peek_span();
                self.advance();
                self.expect(&Token::LParen)?;
                let e = self.parse_expr()?;
                self.expect(&Token::RParen)?;
                let at = self.expect(&Token::At)?;
                mods.push(GateModifier::Pow(e, Span::merge(&span, &at)));
                assert(modifiers_model(mods@) =~= modifiers_model(before).push(modifier_model(mods@.last())));
            } else {
                break;
            }
        }
        Ok(mods)
    }

    fn parse_gate_call_stmt(&mut self) -> (r: Result<Stmt, ParseError>)
        requires
            old(self).wf(),
            old(self).pos < old(self).tokens@.len(),
        ensures
            moved_on(*old(self), *final(self)),
            r is Ok ==> old(self).pos < final(self).pos,
            reads_as(
                r,
                *final(self),
                read_call_rest(old(self).tokens@, old(self).tokens@[old(self).pos as int].span, seq![], old(self).pos as int),
                |s: Stmt| stmt_model(s),
            ),
        decreases old(self).remaining(), 25nat,
    {
        let start = self.peek_span();
        let modifiers: Vec<GateModifier> = Vec::new();
        assert(modifiers_model(modifiers@) =~= seq![]);
        self.parse_call_rest(start, modifiers)
    }

    /// Identifier at statement position: assignment or gate call.
    fn parse_ident_stmt(&mut self) -> (r: Result<Stmt, ParseError>)
        requires
            old(self).wf(),
        ensures
            moved_on(*old(self), *final(self)),
            r is Ok ==> old(self).pos < final(self).pos,
            reads_as(r, *final(self), read_ident_stmt(old(self).tokens@, old(self).pos as int), |s: Stmt| stmt_model(s)),
        decreases old(self).remaining(), 25nat,
    {
        let (name, name_span) = self.expect_ident()?;
        // Assignment: `x = expr;` or `x += expr;` or `x -= expr;`
        let assign_op = if self.check(&Token::Equals) {
            Some(AssignOp::Assign)
        } else if self.check(&Token::PlusEquals) {
            Some(AssignOp::AddAssign)
        } else if self.check(&Token::MinusEquals) {
            Some(AssignOp::SubAssign)
        } else {
            None
        };
        if let Some(op) = assign_op {
            self.advance();
            // Special case: `c = measure q;`
            if op == AssignOp::Assign && self.check(&Token::Measure) {
                self.advance();
                let qubit = self.parse_operand()?;
                let end = self.expect(&Token::Semicolon)?;
                return Ok(
                    Stmt::Measure {
                        qubit,
                        target: Some(
                            GateOperand { name, index: None, slice: None, span: name_span },
                        ),
                        span: Span::merge(&name_span, &end),
                    },
                );
            }
            let value = self.parse_expr()?;
            let end = self.expect(&Token::Semicolon)?;
            return Ok(Stmt::Assignment { name, op, value, span: Span::merge(&name_span, &end) });
        }
        // Gate call with optional params: `rx(pi/2) q[0];`
        let params = self.parse_optional_params()?;
        let args = self.parse_operand_list()?;
        let end = self.expect(&Token::Semicolon)?;
        let modifiers: Vec<GateModifier> = Vec::new();
        assert(modifiers_model(modifiers@) =~= seq![]);
        Ok(Stmt::GateCall { name, modifiers, params, args, span: Span::merge(&name_span, &end) })
    }

    /// Expressions separated by commas, up to a `)`.
    fn parse_args(&mut self) -> (r: Result<Vec<Expr>, ParseError>)
        requires
            old(self).wf(),
        ensures
            moved_on(*old(self), *final(self)),
            reads_as(r, *final(self), read_args(old(self).tokens@, old(self).pos as int), |v: Vec<Expr>| exprs_model(v@)),
        decreases old(self).remaining(), 14nat,
    {
        let ghost toks = self.tokens@;
        let mut exprs: Vec<Expr> = Vec::new();
        if !self.check(&Token::RParen) {
            let e = self.parse_expr()?;
            proof {
                lemma_exprs_model_push(exprs@, e);
            }
            exprs.push(e);
            while self.check(&Token::Comma)
                invariant
                    moved_on(*old(self), *self),
                    toks == self.tokens@,
                    read_more_exprs(toks, exprs_model(exprs@), self.pos as int) == read_args(
                        toks,
                        old(self).pos as int,
                    ),
                decreases self.tokens@.len() - self.pos,
            {
                self.advance();
                let e = self.parse_expr()?;
                proof {
                    lemma_exprs_model_push(exprs@, e);
                }
                exprs.push(e);
            }
        } else {
            assert(exprs_model(exprs@) =~= seq![]);
        }
        Ok(exprs)
    }

    fn parse_optional_params(&mut self) -> (r: Result<Vec<Expr>, ParseError>)
        requires
            old(self).wf(),
        ensures
            moved_on(*old(self), *final(self)),
            reads_as(
                r,
                *final(self),
                read_optional_params(old(self).tokens@, old(self).pos as int),
                |v: Vec<Expr>| exprs_model(v@),
            ),
        decreases old(self).remaining(), 20nat,
    {
        if !self.check(&Token::LParen) {
            let none: Vec<Expr> = Vec::new();
            assert(exprs_model(none@) =~= seq![]);
            return Ok(none);
        }
        self.advance();
        let exprs = self.parse_args()?;
        self.expect(&Token::RParen)?;
        Ok(exprs)
    }

    fn parse_measure_stmt(&mut self) -> (r: Result<Stmt, ParseError>)
        requires
            old(self).wf(),
            old(self).pos < old(self).tokens@.len(),
        ensures
            moved_on(*old(self), *final(self)),
            r is Ok ==> old(self).pos < final(self).pos,
            reads_as(r, *final(self), read_measure(old(self).tokens@, old(self).pos as int), |s: Stmt| stmt_model(s)),
    {
        let start = self.peek_span();
        self.advance();  // consume `measure`
        let qubit = self.parse_operand()?;
        // Legacy form `measure q -> c;`
        let target = if self.check(&Token::Arrow) {
            self.advance();
            Some(self.parse_operand()?)
        } else {
            None
        };
        let end = self.expect(&Token::Semicolon)?;
        Ok(Stmt::Measure { qubit, target, span: Span::merge(&start, &end) })
    }

    fn parse_reset_stmt(&mut self) -> (r: Result<Stmt, ParseError>)
        requires
            old(self).wf(),
            old(self).pos < old(self).tokens@.len(),
        ensures
            moved_on(*old(self), *final(self)),
            r is Ok ==> old(self).pos < final(self).pos,
            reads_as(r, *final(self), read_reset(old(self).tokens@, old(self).pos as int), |s: Stmt| stmt_model(s)),
    {
        let start = self.peek_span();
        self.advance();  // consume `reset`
        let target = self.parse_operand()?;
        let end = self.expect(&Token::Semicolon)?;
        Ok(Stmt::Reset { target, span: Span::merge(&start, &end) })
    }

    fn parse_barrier_stmt(&mut self) -> (r: Result<Stmt, ParseError>)
        requires
            old(self).wf(),
            old(self).pos < old(self).tokens@.len(),
        ensures
            moved_on(*old(self), *final(self)),
            r is Ok ==> old(self).pos < final(self).pos,
            reads_as(r, *final(self), read_barrier(old(self).tokens@, old(self).pos as int), |s: Stmt| stmt_model(s)),
    {
        let start = self.peek_span();
        self.advance();  // consume `barrier`
        let targets = self.parse_operand_list()?;
        let end = self.expect(&Token::Semicolon)?;
        Ok(Stmt::Barrier { targets, span: Span::merge(&start, &end) })
    }

    /// `delay[duration] q, ...;`
    fn parse_delay_stmt(&mut self) -> (r: Result<Stmt, ParseError>)
        requires
            old(self).wf(),
            old(self).pos < old(self).tokens@.len(),
        ensures
            moved_on(*old(self), *final(self)),
            r is Ok ==> old(self).pos < final(self).pos,
            reads_as(r, *final(self), read_delay(old(self).tokens@, old(self).pos as int), |s: Stmt| stmt_model(s)),
        decreases old(self).remaining(), 25nat,
    {
        let start = self.peek_span();
        self.advance();  // consume `delay`
        self.expect(&Token::LBracket)?;
        let duration = self.parse_expr()?;
        self.expect(&Token::RBracket)?;
        let targets = self.parse_operand_list()?;
        let end = self.expect(&Token::Semicolon)?;
        Ok(Stmt::Delay { duration, targets, span: Span::merge(&start, &end) })
    }

    // ── Operands ────────────────────────────────────────────

    /// `name`, `name[i]` or `name[a:b]`.
    fn parse_operand(&mut self) -> (r: Result<GateOperand, ParseError>)
        requires
            old(self).wf(),
        ensures
            moved_on(*old(self), *final(self)),
            r is Ok ==> old(self).pos < final(self).pos,
            reads_as(r, *final(self), read_operand(old(self).tokens@, old(self).pos as int), |o: GateOperand| operand_model(o)),
    {
        let (name, name_span) = self.expect_ident()?;
        if self.check(&Token::LBracket) {
            self.advance();
            let idx = self.expect_int("expected integer index")?;
            if self.check(&Token::Colon) {
                self.advance();
                let last = self.expect_int("expected integer index")?;
                let end = self.expect(&Token::RBracket)?;
                return Ok(
                    GateOperand {
                        name,
                        index: None,
                        slice: Some((idx, last)),
                        span: Span::merge(&name_span, &end),
                    },
                );
            }
            let end = self.expect(&Token::RBracket)?;
            Ok(
                GateOperand {
                    name,
                    index: Some(idx),
                    slice: None,
                    span: Span::merge(&name_span, &end),
                },
            )
        } else {
            Ok(GateOperand { name, index: None, slice: None, span: name_span })
        }
    }

    fn parse_operand_list(&mut self) -> (r: Result<Vec<GateOperand>, ParseError>)
        requires
            old(self).wf(),
        ensures
            moved_on(*old(self), *final(self)),
            reads_as(
                r,
                *final(self),
                read_operand_list(old(self).tokens@, old(self).pos as int),
                |v: Vec<GateOperand>| operands_model(v@),
            ),
    {
        let ghost toks = self.tokens@;
        let mut ops: Vec<GateOperand> = Vec::new();
        if let Some(Token::Ident(_)) = self.peek() {
            let o = self.parse_operand()?;
            ops.push(o);
            assert(operands_model(ops@) =~= seq![operand_model(o)]);
            while self.check(&Token::Comma)
                invariant
                    moved_on(*old(self), *self),
                    toks == self.tokens@,
                    read_more_operands(toks, operands_model(ops@), self.pos as int) == read_operand_list(
                        toks,
                        old(self).pos as int,
                    ),
                decreases self.tokens@.len() - self.pos,
            {
                self.advance();
                let o = self.parse_operand()?;
                let ghost before = ops@;
                ops.push(o);
                assert(operands_model(ops@) =~= operands_model(before).push(operand_model(o)));
            }
        } else {
            assert(operands_model(ops@) =~= seq![]);
        }
        Ok(ops)
    }

    // ── Expression parser (Pratt / precedence climbing) ─────

    pub fn parse_expr(&mut self) -> (r: Result<Expr, ParseError>)
        requires
            old(self).wf(),
        ensures
            moved_on(*old(self), *final(self)),
            r is Ok ==> moved_past(*old(self), *final(self)),
            reads_as(r, *final(self), read_expr(old(self).toks(), old(self).position()), |e: Expr| expr_model(e)),
        decreases old(self).remaining(), 12nat,
    {
        self.parse_comparison()
    }

    /// Comparison operators have the lowest precedence.
    fn parse_comparison(&mut self) -> (r: Result<Expr, ParseError>)
        requires
            old(self).wf(),
        ensures
            moved_on(*old(self), *final(self)),
            r is Ok ==> old(self).pos < final(self).pos,
            reads_as(r, *final(self), read_comparison(old(self).tokens@, old(self).pos as int), |e: Expr| expr_model(e)),
        decreases old(self).remaining(), 11nat,
    {
        let ghost toks = self.tokens@;
        let mut lhs = self.parse_expr_bp(0)?;
        loop
            invariant
                moved_on(*old(self), *self),
                old(self).pos < self.pos,
                toks == self.tokens@,
                read_compare_tail(toks, expr_model(lhs), self.pos as int) == read_comparison(
                    toks,
                    old(self).pos as int,
                ),
            ensures
                moved_on(*old(self), *self),
                old(self).pos < self.pos,
                read_comparison(toks, old(self).pos as int) == Parsed::Done(expr_model(lhs), self.pos as int),
            decreases self.tokens@.len() - self.pos,
        {
            let op = if self.check(&Token::DoubleEquals) {
                CompareOp::Eq
            } else if self.check(&Token::NotEquals) {
                CompareOp::Ne
            } else if self.check(&Token::Less) {
                CompareOp::Lt
            } else if self.check(&Token::LessEquals) {
                CompareOp::Le
            } else if self.check(&Token::Greater) {
                CompareOp::Gt
            } else if self.check(&Token::GreaterEquals) {
                CompareOp::Ge
            } else {
                break;
            };
            self.advance();
            let rhs = self.parse_expr_bp(0)?;
            let span = Span::merge(lhs.span(), rhs.span());
            proof {
                lemma_expr_model_span(lhs);
                lemma_expr_model_span(rhs);
            }
            lhs = Expr::Compare { op, lhs: Box::new(lhs), rhs: Box::new(rhs), span };
        }
        Ok(lhs)
    }

    /// Pratt parser: parse an expression with minimum binding power `min_bp`.
    fn parse_expr_bp(&mut self, min_bp: u8) -> (r: Result<Expr, ParseError>)
        requires
            old(self).wf(),
        ensures
            moved_on(*old(self), *final(self)),
            r is Ok ==> old(self).pos < final(self).pos,
            reads_as(
                r,
                *final(self),
                read_expr_bp(old(self).tokens@, old(self).pos as int, min_bp as int),
                |e: Expr| expr_model(e),
            ),
        decreases old(self).remaining(), 10nat,
    {
        let ghost toks = self.tokens@;
        let mut lhs = self.parse_prefix()?;
        loop
            invariant
                moved_on(*old(self), *self),
                old(self).pos < self.pos,
                toks == self.tokens@,
                read_binop_tail(toks, expr_model(lhs), self.pos as int, min_bp as int) == read_expr_bp(
                    toks,
                    old(self).pos as int,
                    min_bp as int,
                ),
            ensures
                moved_on(*old(self), *self),
                old(self).pos < self.pos,
                read_expr_bp(toks, old(self).pos as int, min_bp as int) == Parsed::Done(
                    expr_model(lhs),
                    self.pos as int,
                ),
            decreases self.tokens@.len() - self.pos,
        {
            let (op, l_bp, r_bp): (BinOp, u8, u8) = if self.check(&Token::Plus) {
                (BinOp::Add, 1, 2)
            } else if self.check(&Token::Minus) {
                (BinOp::Sub, 1, 2)
            } else if self.check(&Token::Star) {
                (BinOp::Mul, 3, 4)
            } else if self.check(&Token::Slash) {
                (BinOp::Div, 3, 4)
            } else if self.check(&Token::DoubleStar) {
                (BinOp::Pow, 6, 5)  // right-associative
            } else {
                break;
            };
            if l_bp < min_bp {
                break;
            }
            self.advance();
            let rhs = self.parse_expr_bp(r_bp)?;
            let span = Span::merge(lhs.span(), rhs.span());
            proof {
                lemma_expr_model_span(lhs);
                lemma_expr_model_span(rhs);
            }
            lhs = Expr::BinOp { op, lhs: Box::new(lhs), rhs: Box::new(rhs), span };
        }
        Ok(lhs)
    }

    fn parse_prefix(&mut self) -> (r: Result<Expr, ParseError>)
        requires
            old(self).wf(),
        ensures
            moved_on(*old(self), *final(self)),
            r is Ok ==> old(self).pos < final(self).pos,
            reads_as(r, *final(self), read_prefix(old(self).tokens@, old(self).pos as int), |e: Expr| expr_model(e)),
        decreases old(self).remaining(), 9nat,
    {
        let span = self.peek_span();
        if self.pos >= self.tokens.len() {
            return Err(self.error("expected expression"));
        }
        let tok = self.tokens[self.pos].node.clone();
        match tok {
            Token::Minus => {
                self.advance();
                let operand = self.parse_expr_bp(5)?;
                proof {
                    lemma_expr_model_span(operand);
                }
                let span = Span::merge(&span, operand.span());
                Ok(Expr::Neg(Box::new(operand), span))
            },
            Token::LParen => {
                self.advance();
                let inner = self.parse_expr()?;
                self.expect(&Token::RParen)?;
                Ok(inner)
            },
            Token::IntLiteral(n) => {
                self.advance();
                Ok(Expr::IntLit(n, span))
            },
            Token::FloatLiteral(text) => {
                self.advance();
                Ok(Expr::FloatLit(float_display(text.as_str()), span))
            },
            Token::True => {
                self.advance();
                Ok(Expr::BoolLit(true, span))
            },
            Token::False => {
                self.advance();
                Ok(Expr::BoolLit(false, span))
            },
            Token::Ident(name) => {
                self.advance();
                // Indexed bit: `c[1]`
                if self.check(&Token::LBracket) {
                    self.advance();
                    let index = self.expect_int("expected integer index")?;
                    let end = self.expect(&Token::RBracket)?;
                    return Ok(Expr::Index { name, index, span: Span::merge(&span, &end) });
                }
                // Function call: `f(a, b)`
                if self.check(&Token::LParen) {
                    self.advance();
                    let args = self.parse_args()?;
                    let end = self.expect(&Token::RParen)?;
                    return Ok(Expr::Call { name, args, span: Span::merge(&span, &end) });
                }
                if name_is(&name, "pi") {
                    Ok(Expr::Const(ConstKind::Pi, span))
                } else if name_is(&name, "tau") {
                    Ok(Expr::Const(ConstKind::Tau, span))
                } else if name_is(&name, "euler") {
                    Ok(Expr::Const(ConstKind::Euler, span))
                } else {
                    Ok(Expr::Ident(name, span))
                }
            },
            _ => Err(self.error("expected expression")),
        }
    }
}

fn name_is(name: &String, text: &str) -> (r: bool)
    ensures
        r == (name@ == text@),
{
    crate::text::str_eq(name.as_str(), text)
}

} // verus!
