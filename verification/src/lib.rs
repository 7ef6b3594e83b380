//! OpenQASM 3 parsing, semantic analysis, circuit lowering, optimization, and
//! emission.
//!
//! Use [`compile_source`] for in-memory programs. File-based clients resolve
//! local include files with the [`includes`] expander before compiling.

pub mod analysis;
pub mod ast;
pub mod codegen;
pub mod grammar;
pub mod consteval;
pub mod hir;
pub mod includes;
pub mod inline;
pub mod ir;
pub mod lexer;
pub mod lower;
pub mod names;
pub mod opt;
pub mod parser;
pub mod spelled;
pub mod sema;
pub mod span;
pub mod syntax;
pub mod text;

use vstd::prelude::*;
use vstd::string::*;

use crate::ast::Program;
use crate::hir::HirProgram;
use crate::lower::LowerError;
use crate::parser::ParseError;
use crate::sema::{program_diags, DiagText, Diagnostic, Severity};
use crate::span::Span;

verus! {

#[derive(Debug, Clone, Copy)]
pub struct CompileOptions {
    /// Run the default, semantics-preserving optimization pipeline.
    pub optimize: bool,
}

impl Default for CompileOptions {
    fn default() -> (r: Self)
        ensures
            r.optimize,
    {
        CompileOptions { optimize: true }
    }
}

pub struct CompileOutput {
    /// Canonically emitted OpenQASM.
    pub qasm: String,
    /// Lowered program with circuit DAG regions.
    pub hir: HirProgram,
    /// Non-fatal diagnostics, currently warnings.
    pub diagnostics: Vec<Diagnostic>,
    /// Number of gates removed by optimization.
    pub gates_removed: usize,
}

#[derive(Debug)]
pub enum CompileError {
    /// Invalid source bytes and their spans.
    Lex(Vec<Span>),
    /// One or more syntax errors recovered from the source.
    Parse(Vec<ParseError>),
    /// Semantic or linearity errors.
    Semantic(Vec<Diagnostic>),
    /// Failure while lowering a semantically valid AST.
    Lower(LowerError),
}

/// The diagnostics as text.
pub open spec fn diag_texts(diags: Seq<Diagnostic>) -> Seq<DiagText> {
    diags.map_values(|d: Diagnostic| d@)
}

/// Some diagnostic is an error.
pub open spec fn has_error(diags: Seq<DiagText>) -> bool {
    exists|i: int| 0 <= i < diags.len() && (#[trigger] diags[i]).0 == Severity::Error
}

fn any_error(diags: &Vec<Diagnostic>) -> (r: bool)
    ensures
        r == has_error(diag_texts(diags@)),
{
    let mut i: usize = 0;
    while i < diags.len()
        invariant
            i <= diags@.len(),
            forall|k: int| 0 <= k < i ==> (#[trigger] diag_texts(diags@)[k]).0 != Severity::Error,
        decreases diags@.len() - i,
    {
        if diags[i].severity == Severity::Error {
            assert(diag_texts(diags@)[i as int].0 == Severity::Error);
            return true;
        }
        i += 1;
    }
    false
}

/// What compiling a parsed program gives: the semantic diagnostics exactly
/// when one of them is an error; otherwise a lowering failure, or an output
/// that carries all (warning) diagnostics of the program and whose text is
/// the emission of its HIR.
pub open spec fn compiled(program: Program, options: CompileOptions, r: Result<CompileOutput, CompileError>) -> bool {
    &&& has_error(program_diags(program)) <==> (r matches Err(CompileError::Semantic(_)))
    &&& (r matches Err(CompileError::Semantic(d)) ==> diag_texts(d@) == program_diags(program))
    &&& (r matches Err(e) ==> (e is Semantic || e is Lower))
    &&& (r matches Ok(out) ==> {
        &&& out.hir.wf()
        &&& diag_texts(out.diagnostics@) == program_diags(program)
        &&& out.hir.version@ == program.version@
        &&& out.qasm@ == crate::hir::hir_program_text(out.hir, crate::hir::block_emitted_orders(out.hir.statements@))
        &&& crate::hir::block_orders_ok(out.hir.statements@, crate::hir::block_emitted_orders(out.hir.statements@))
        &&& !options.optimize ==> out.gates_removed == 0
    })
    &&& (!has_error(program_diags(program)) ==> lowering_outcome(program, options, r))
}

/// How lowering decides a program free of semantic errors: it fails at the
/// first statement that names an unknown wire or does not broadcast, or at a
/// machine limit; otherwise the output has a wire per declared qubit and,
/// unoptimized, holds exactly the lowered statements.
pub open spec fn lowering_outcome(
    program: Program,
    options: CompileOptions,
    r: Result<CompileOutput, CompileError>,
) -> bool {
    let qn = crate::lower::declared(program.statements@, true);
    let bn = crate::lower::declared(program.statements@, false);
    match crate::lower::block_failure(program.statements@, qn, bn) {
        Some(m) => r matches Err(CompileError::Lower(e)) && (e.message@ == m || crate::lower::limit_failure(
            e.message@,
            qn,
            bn,
            program.statements@,
        )),
        None => match r {
            Ok(out) => {
                &&& out.hir.num_qubits == qn.len()
                &&& out.hir.num_bits == bn.len()
                &&& !options.optimize ==> crate::lower::lowered_block(program.statements@, qn, bn, out.hir.statements@)
                &&& options.optimize ==> optimized_lowering(program.statements@, qn, bn, out)
            },
            Err(CompileError::Lower(e)) => crate::lower::limit_failure(e.message@, qn, bn, program.statements@),
            Err(_) => false,
        },
    }
}

/// The output holds the lowered statements with inverse pairs cancelled in
/// their circuit regions (gates the program defines left alone), and counts
/// the gates that went.
pub open spec fn optimized_lowering(
    stmts: Seq<crate::ast::Stmt>,
    qn: Seq<(Seq<char>, Option<u64>)>,
    bn: Seq<(Seq<char>, Option<u64>)>,
    out: CompileOutput,
) -> bool {
    exists|lowered: Seq<crate::hir::HirStmt>, excluded: Seq<String>|
        #[trigger] crate::lower::lowered_block(stmts, qn, bn, lowered) && crate::opt::names_of(excluded)
            == crate::opt::defined_gates(lowered) && #[trigger] crate::opt::stmts_optimized(
            out.hir.statements@,
            lowered,
            excluded,
        ) && (crate::hir::stmts_gates(lowered) <= usize::MAX ==> crate::hir::stmts_gates(out.hir.statements@)
            + out.gates_removed == crate::hir::stmts_gates(lowered) && out.gates_removed % 2 == 0)
}

/// What compiling the tokens `toks` of a source of `source_len` bytes gives:
/// the syntax errors, with the messages and at the failures of reading the
/// program with recovery, when there are any; otherwise the compilation of a
/// program whose version and statements are those read.
pub open spec fn compiled_tokens(
    toks: Seq<crate::span::Spanned<crate::lexer::Token>>,
    source_len: usize,
    options: CompileOptions,
    r: Result<CompileOutput, CompileError>,
) -> bool {
    let (stmts, errs) = crate::grammar::read_recovering(toks, 0);
    match r {
        Err(CompileError::Parse(errors)) => errs.len() > 0 && errors@.len() == errs.len() && forall|k: int|
            0 <= k < errs.len() ==> (#[trigger] errors@[k]).message@ == errs[k].1 && errors@[k].span
                == crate::grammar::tok_span(toks, errs[k].0, source_len),
        _ => errs.len() == 0 && exists|prog: Program|
            crate::syntax::stmts_model(prog.statements@) == stmts && (crate::grammar::read_version(toks, 0) matches crate::grammar::Parsed::Done(v, _) && prog.version@ == v) && #[trigger] compiled(prog, options, r),
    }
}

/// Analyse, lower, optionally optimize and emit a parsed program.
pub fn compile_program(program: &Program, options: CompileOptions) -> (r: Result<CompileOutput, CompileError>)
    ensures
        compiled(*program, options, r),
{
    let diagnostics = crate::sema::analyze(program);
    if any_error(&diagnostics) {
        return Err(CompileError::Semantic(diagnostics));
    }
    let mut hir = match crate::lower::lower_hir(program) {
        Ok(h) => h,
        Err(e) => {
            return Err(CompileError::Lower(e));
        },
    };
    let ghost lowered = hir.statements@;
    let gates_removed = if options.optimize {
        crate::opt::optimize_hir(&mut hir).gates_removed
    } else {
        0
    };
    let qasm = hir.emit_qasm();
    let out = CompileOutput { qasm, hir, diagnostics, gates_removed };
    proof {
        if options.optimize {
            let excluded = choose|excluded: Seq<String>|
                crate::opt::names_of(excluded) == crate::opt::defined_gates(lowered) && #[trigger] crate::opt::stmts_optimized(
                    out.hir.statements@,
                    lowered,
                    excluded,
                );
            assert(crate::opt::stmts_optimized(out.hir.statements@, lowered, excluded));
        }
    }
    Ok(out)
}

/// Optimizing changes a compilation only by the gates it cancels: when a
/// program compiles both with and without optimization, the optimized
/// output holds the unoptimized output's gates less the ones it reports
/// removed, and it removes them in pairs.
pub proof fn law_optimize_removes_reported_gates(program: Program, plain: CompileOutput, optimized: CompileOutput)
    requires
        compiled(program, CompileOptions { optimize: false }, Ok(plain)),
        compiled(program, CompileOptions { optimize: true }, Ok(optimized)),
        crate::hir::stmts_gates(plain.hir.statements@) <= usize::MAX,
    ensures
        crate::hir::stmts_gates(optimized.hir.statements@) + optimized.gates_removed == crate::hir::stmts_gates(
            plain.hir.statements@,
        ),
        optimized.gates_removed % 2 == 0,
        plain.gates_removed == 0,
{
    let qn = crate::lower::declared(program.statements@, true);
    let bn = crate::lower::declared(program.statements@, false);
    assert(lowering_outcome(program, CompileOptions { optimize: false }, Ok(plain)));
    assert(lowering_outcome(program, CompileOptions { optimize: true }, Ok(optimized)));
    assert(crate::lower::lowered_block(program.statements@, qn, bn, plain.hir.statements@));
    assert(optimized_lowering(program.statements@, qn, bn, optimized));
    let (lowered, excluded) = choose|lowered: Seq<crate::hir::HirStmt>, excluded: Seq<String>|
        #[trigger] crate::lower::lowered_block(program.statements@, qn, bn, lowered) && crate::opt::names_of(excluded)
            == crate::opt::defined_gates(lowered) && #[trigger] crate::opt::stmts_optimized(
            optimized.hir.statements@,
            lowered,
            excluded,
        ) && (crate::hir::stmts_gates(lowered) <= usize::MAX ==> crate::hir::stmts_gates(optimized.hir.statements@)
            + optimized.gates_removed == crate::hir::stmts_gates(lowered) && optimized.gates_removed % 2 == 0);
    crate::lower::lemma_lowered_block_gates(program.statements@, qn, bn, lowered, plain.hir.statements@);
}

/// Whether a program compiles does not depend on optimization, but for a
/// machine limit: with and without it, a program fails with the same
/// semantic diagnostics, and when one way succeeds the other succeeds too
/// or stops at a machine limit.
pub proof fn law_optimize_keeps_outcome(
    program: Program,
    plain: Result<CompileOutput, CompileError>,
    optimized: Result<CompileOutput, CompileError>,
)
    requires
        compiled(program, CompileOptions { optimize: false }, plain),
        compiled(program, CompileOptions { optimize: true }, optimized),
    ensures
        (plain matches Err(CompileError::Semantic(_))) <==> (optimized matches Err(CompileError::Semantic(_))),
        plain matches Err(CompileError::Semantic(d)) ==> (optimized matches Err(CompileError::Semantic(e)) && diag_texts(
            d@,
        ) == diag_texts(e@)),
        plain is Ok ==> (optimized is Ok || (optimized matches Err(CompileError::Lower(e)) && crate::lower::limit_failure(
            e.message@,
            crate::lower::declared(program.statements@, true),
            crate::lower::declared(program.statements@, false),
            program.statements@,
        ))),
        optimized is Ok ==> (plain is Ok || (plain matches Err(CompileError::Lower(e)) && crate::lower::limit_failure(
            e.message@,
            crate::lower::declared(program.statements@, true),
            crate::lower::declared(program.statements@, false),
            program.statements@,
        ))),
{
    if !has_error(program_diags(program)) {
        assert(lowering_outcome(program, CompileOptions { optimize: false }, plain));
        assert(lowering_outcome(program, CompileOptions { optimize: true }, optimized));
    }
}

/// Compile OpenQASM source through parsing, semantic analysis, HIR lowering,
/// optional optimization, and canonical emission.
pub fn compile_source(source: &str, options: CompileOptions) -> (r: Result<CompileOutput, CompileError>)
    ensures
        r matches Err(CompileError::Lex(spans)) ==> spans@.len() > 0 && exists|toks: Seq<
            crate::span::Spanned<crate::lexer::Token>,
        >| #[trigger] crate::lexer::lexed(source.spec_bytes(), toks, spans@),
        !(r matches Err(CompileError::Lex(_))) ==> exists|toks: Seq<crate::span::Spanned<crate::lexer::Token>>|
            #[trigger] crate::lexer::lexed(source.spec_bytes(), toks, seq![]) && compiled_tokens(
                toks,
                source.spec_bytes().len() as usize,
                options,
                r,
            ),
{
    let (tokens, lex_errors) = crate::lexer::lex(source);
    if lex_errors.len() > 0 {
        assert(crate::lexer::lexed(source.spec_bytes(), tokens@, lex_errors@));
        return Err(CompileError::Lex(lex_errors));
    }
    let ghost toks = tokens@;
    assert(lex_errors@ =~= seq![]);
    assert(crate::lexer::lexed(source.spec_bytes(), toks, seq![]));
    let mut parser = crate::parser::Parser::from_tokens(tokens, source.len());
    let r = match parser.parse_recovering() {
        Ok(program) => {
            let r = compile_program(&program, options);
            assert(compiled(program, options, r));
            r
        },
        Err(errors) => Err(CompileError::Parse(errors)),
    };
    r
}

} // verus!
