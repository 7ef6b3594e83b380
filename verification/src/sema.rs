//! Semantic analysis for OpenQASM 3.
//!
//! One walk over the program checks symbol resolution (duplicate
//! declarations, undeclared names, index bounds, gate arity, classical types)
//! and qubit linearity (use after measurement, with conservative merging
//! through branches and loops).
//!
//! The checker is specified by [`stmts_step`]: a state of scopes, gate and
//! function signatures, measured qubits and diagnostics, advanced statement by
//! statement.

use vstd::prelude::*;

use crate::ast::{
    classical_type_text, expr_span, AssignOp, ClassicalQualifier, ClassicalType, Expr, ForRange,
    GateModifier, GateOperand, Program, Stmt,
};
use crate::codegen::operand_text;
use crate::consteval::{const_int, eval_int};
use crate::names::NameMap;
use crate::span::Span;
use crate::text::{
    decimal_text, eq_ignore_ascii_case, eq_ignore_ascii_case_spec, push_u64, push_usize,
    str_eq, string_of,
};

verus! {

broadcast use vstd::seq::group_seq_axioms;

// ── Diagnostics ─────────────────────────────────────────────

#[derive(Debug, Clone, Copy, PartialEq, Eq, Structural)]
pub enum Severity {
    Error,
    Warning,
}

#[derive(Debug, Clone)]
pub struct Diagnostic {
    pub severity: Severity,
    pub message: String,
    pub span: Span,
    pub secondary: Option<(String, Span)>,
}

/// A diagnostic as text: severity, message, span and optional note.
pub type DiagText = (Severity, Seq<char>, Span, Option<(Seq<char>, Span)>);

impl View for Diagnostic {
    type V = DiagText;

    open spec fn view(&self) -> DiagText {
        (
            self.severity,
            self.message@,
            self.span,
            match self.secondary {
                Some((n, s)) => Some((n@, s)),
                None => None,
            },
        )
    }
}

pub open spec fn err(message: Seq<char>, span: Span) -> DiagText {
    (Severity::Error, message, span, None)
}

pub open spec fn err_note(message: Seq<char>, span: Span, note: Seq<char>, note_span: Span) -> DiagText {
    (Severity::Error, message, span, Some((note, note_span)))
}

pub open spec fn warn(message: Seq<char>, span: Span) -> DiagText {
    (Severity::Warning, message, span, None)
}

impl Diagnostic {
    fn error(message: String, span: Span) -> (r: Self)
        ensures
            r@ == err(message@, span),
    {
        Diagnostic { severity: Severity::Error, message, span, secondary: None }
    }

    fn error_with_note(message: String, span: Span, note: String, note_span: Span) -> (r: Self)
        ensures
            r@ == err_note(message@, span, note@, note_span),
    {
        Diagnostic { severity: Severity::Error, message, span, secondary: Some((note, note_span)) }
    }

    fn warning(message: String, span: Span) -> (r: Self)
        ensures
            r@ == warn(message@, span),
    {
        Diagnostic { severity: Severity::Warning, message, span, secondary: None }
    }
}

// ── Symbols and signatures ──────────────────────────────────

#[derive(Debug, Clone, Copy, PartialEq, Eq, Structural)]
pub enum SymbolKind {
    Qubit,
    Bit,
    Classical(ClassicalType),
    Const(ClassicalType),
    /// A parameter name inside a gate definition (angle parameter).
    GateParam,
    /// A qubit wire name inside a gate definition.
    GateQubit,
}

#[derive(Debug, Clone, Copy, PartialEq, Eq, Structural)]
pub struct Symbol {
    pub kind: SymbolKind,
    pub size: Option<u64>,
    pub decl_span: Span,
}

/// Gate signature for arity checking.
#[derive(Debug, Clone, Copy, PartialEq, Eq, Structural)]
pub struct GateSig {
    pub param_count: usize,
    pub qubit_count: usize,
    pub decl_span: Span,
}

/// Signature of an expression function.
#[derive(Debug)]
pub struct FunctionSig {
    pub params: Vec<ClassicalType>,
    pub return_type: ClassicalType,
    pub decl_span: Span,
}

/// A function signature as values: parameter types, return type, declaration.
pub type FunctionSigView = (Seq<ClassicalType>, ClassicalType, Span);

pub open spec fn sig_view(f: FunctionSig) -> FunctionSigView {
    (f.params@, f.return_type, f.decl_span)
}

/// Parameter and qubit counts of the standard gates, by case-insensitive name.
pub open spec fn standard_sig(name: Seq<char>) -> Option<(usize, usize)> {
    let is = |w: Seq<char>| eq_ignore_ascii_case_spec(name, w);
    if is("u"@) {
        Some((3, 1))
    } else if is("gphase"@) {
        Some((1, 0))
    } else if is("id"@) || is("x"@) || is("y"@) || is("z"@) || is("h"@) || is("s"@) || is("sdg"@)
        || is("t"@) || is("tdg"@) || is("sx"@) {
        Some((0, 1))
    } else if is("p"@) || is("rx"@) || is("ry"@) || is("rz"@) {
        Some((1, 1))
    } else if is("cx"@) || is("cnot"@) || is("cy"@) || is("cz"@) || is("ch"@) || is("swap"@) {
        Some((0, 2))
    } else if is("cp"@) || is("crx"@) || is("cry"@) || is("crz"@) {
        Some((1, 2))
    } else if is("ccx"@) || is("cswap"@) {
        Some((0, 3))
    } else {
        None
    }
}

/// Total control count of a modifier list, when every control argument is a
/// positive compile-time integer and the total fits a `usize`.
pub open spec fn control_count(mods: Seq<GateModifier>) -> Option<int>
    decreases mods.len(),
{
    if mods.len() == 0 {
        Some(0)
    } else {
        match control_count(mods.drop_last()) {
            None => None,
            Some(t) => match mods.last() {
                GateModifier::Ctrl(arg, _) | GateModifier::NegCtrl(arg, _) => {
                    let c = match arg {
                        Some(e) => const_int(e),
                        None => Some(1),
                    };
                    match c {
                        None => None,
                        Some(c) => if c <= 0 || t + c > usize::MAX {
                            None
                        } else {
                            Some(t + c)
                        },
                    }
                },
                _ => Some(t),
            },
        }
    }
}

pub open spec fn is_numeric_spec(t: ClassicalType) -> bool {
    t != ClassicalType::Bool
}

/// A value of type `actual` may be stored where `expected` is declared.
pub open spec fn assignable_spec(expected: ClassicalType, actual: ClassicalType) -> bool {
    ||| expected == actual
    ||| expected == ClassicalType::UInt && actual == ClassicalType::Int
    ||| expected == ClassicalType::Angle && actual == ClassicalType::Float
    ||| (expected == ClassicalType::Float || expected == ClassicalType::Angle) && (actual
        == ClassicalType::Int || actual == ClassicalType::UInt)
}

/// Type of an arithmetic result: angle, then float, then int win over uint.
pub open spec fn promoted(a: ClassicalType, b: ClassicalType) -> ClassicalType {
    if a == ClassicalType::Angle || b == ClassicalType::Angle {
        ClassicalType::Angle
    } else if a == ClassicalType::Float || b == ClassicalType::Float {
        ClassicalType::Float
    } else if a == ClassicalType::Int || b == ClassicalType::Int {
        ClassicalType::Int
    } else {
        ClassicalType::UInt
    }
}

pub open spec fn tt(t: ClassicalType) -> Seq<char> {
    classical_type_text(t)
}

pub open spec fn dec(n: int) -> Seq<char> {
    decimal_text(n as nat)
}

// ── Analysis state ──────────────────────────────────────────

/// Key of a measured qubit: register name and optional index.
pub type QubitKey = (Seq<char>, Option<u64>);

/// What the checker knows at a point of the program.
pub struct SemaState {
    /// Visible names, innermost scope last.
    pub scopes: Seq<Map<Seq<char>, Symbol>>,
    pub gates: Map<Seq<char>, GateSig>,
    pub functions: Map<Seq<char>, FunctionSigView>,
    /// Qubits measured and not reset since, with the measurement's span.
    pub measured: Map<QubitKey, Span>,
    pub diags: Seq<DiagText>,
}

/// The innermost symbol named `name`.
pub open spec fn lookup_symbol(scopes: Seq<Map<Seq<char>, Symbol>>, name: Seq<char>) -> Option<
    Symbol,
>
    decreases scopes.len(),
{
    if scopes.len() == 0 {
        None
    } else if scopes.last().contains_key(name) {
        Some(scopes.last()[name])
    } else {
        lookup_symbol(scopes.drop_last(), name)
    }
}

pub open spec fn insert_symbol(
    scopes: Seq<Map<Seq<char>, Symbol>>,
    name: Seq<char>,
    sym: Symbol,
) -> Seq<Map<Seq<char>, Symbol>> {
    scopes.update(scopes.len() - 1, scopes.last().insert(name, sym))
}

pub open spec fn with_diags(st: SemaState, d: Seq<DiagText>) -> SemaState {
    SemaState { diags: st.diags + d, ..st }
}

pub open spec fn push_scope(st: SemaState) -> SemaState {
    SemaState { scopes: st.scopes.push(Map::empty()), ..st }
}

pub open spec fn pop_scope(st: SemaState) -> SemaState {
    SemaState { scopes: st.scopes.drop_last(), ..st }
}

pub open spec fn with_measured(st: SemaState, m: Map<QubitKey, Span>) -> SemaState {
    SemaState { measured: m, ..st }
}

/// Declare `name` in the innermost scope, or report a duplicate there.
pub open spec fn declare_spec(
    st: SemaState,
    name: Seq<char>,
    kind: SymbolKind,
    size: Option<u64>,
    span: Span,
) -> SemaState {
    if st.scopes.last().contains_key(name) {
        with_diags(
            st,
            seq![
                err_note(
                    "`"@ + name + "` is already declared in this scope"@,
                    span,
                    "`"@ + name + "` first declared here"@,
                    st.scopes.last()[name].decl_span,
                ),
            ],
        )
    } else {
        SemaState {
            scopes: insert_symbol(st.scopes, name, Symbol { kind, size, decl_span: span }),
            ..st
        }
    }
}

// ── Expressions ─────────────────────────────────────────────

pub open spec fn not_declared(name: Seq<char>) -> Seq<char> {
    "`"@ + name + "` is not declared"@
}

/// Inferred type of an expression and the diagnostics its check reports.
pub open spec fn expr_check(
    scopes: Seq<Map<Seq<char>, Symbol>>,
    funcs: Map<Seq<char>, FunctionSigView>,
    e: Expr,
) -> (Option<ClassicalType>, Seq<DiagText>)
    decreases e, 0nat,
{
    match e {
        Expr::Ident(name, span) => match lookup_symbol(scopes, name@) {
            Some(sym) => match sym.kind {
                SymbolKind::Classical(t) => (Some(t), seq![]),
                SymbolKind::Const(t) => (Some(t), seq![]),
                SymbolKind::Bit => (Some(ClassicalType::Int), seq![]),
                SymbolKind::GateParam => (Some(ClassicalType::Float), seq![]),
                _ => (
                    None,
                    seq![err("`"@ + name@ + "` cannot be used as a classical expression"@, span)],
                ),
            },
            None => (None, seq![err(not_declared(name@), span)]),
        },
        Expr::Index { name, index, span } => match lookup_symbol(scopes, name@) {
            None => (None, seq![err(not_declared(name@), span)]),
            Some(sym) => if sym.kind == SymbolKind::Bit {
                match sym.size {
                    Some(size) => if index < size {
                        (Some(ClassicalType::Int), seq![])
                    } else {
                        (
                            None,
                            seq![
                                err(
                                    "index "@ + dec(index as int) + " is out of bounds for `"@
                                        + name@ + "` (size "@ + dec(size as int) + ")"@,
                                    span,
                                ),
                            ],
                        )
                    },
                    None => (None, seq![err("cannot index scalar bit `"@ + name@ + "`"@, span)]),
                }
            } else {
                (
                    None,
                    seq![err("`"@ + name@ + "` is not an indexable classical register"@, span)],
                )
            },
        },
        Expr::Call { name, args, span } => {
            proof {
                assert(decreases_to!(e => args));
                assert(decreases_to!(args => args@));
            }
            if funcs.contains_key(name@) {
                let sig = funcs[name@];
                let arity = if args@.len() != sig.0.len() {
                    seq![
                        err_note(
                            "function `"@ + name@ + "` expects "@ + dec(sig.0.len() as int)
                                + " argument(s), got "@ + dec(args@.len() as int),
                            span,
                            "function defined here"@,
                            sig.2,
                        ),
                    ]
                } else {
                    seq![]
                };
                (Some(sig.1), arity + args_check(scopes, funcs, name@, sig.0, args@))
            } else {
                (
                    None,
                    seq![err("function `"@ + name@ + "` is not defined"@, span)] + args_diags(
                        scopes,
                        funcs,
                        args@,
                    ),
                )
            }
        },
        Expr::IntLit(..) => (Some(ClassicalType::Int), seq![]),
        Expr::FloatLit(..) => (Some(ClassicalType::Float), seq![]),
        Expr::Const(..) => (Some(ClassicalType::Float), seq![]),
        Expr::BoolLit(..) => (Some(ClassicalType::Bool), seq![]),
        Expr::Neg(inner, span) => {
            let (t, d) = expr_check(scopes, funcs, *inner);
            match t {
                Some(t) => if is_numeric_spec(t) {
                    (Some(t), d)
                } else {
                    (None, d.push(err("unary negation requires a numeric operand"@, span)))
                },
                None => (None, d),
            }
        },
        Expr::BinOp { lhs, rhs, span, .. } => {
            let (lt, ld) = expr_check(scopes, funcs, *lhs);
            let (rt, rd) = expr_check(scopes, funcs, *rhs);
            match (lt, rt) {
                (Some(a), Some(b)) => if is_numeric_spec(a) && is_numeric_spec(b) {
                    (Some(promoted(a, b)), ld + rd)
                } else {
                    (
                        None,
                        (ld + rd).push(err("arithmetic operators require numeric operands"@, span)),
                    )
                },
                _ => (None, ld + rd),
            }
        },
        Expr::Compare { lhs, rhs, span, .. } => {
            let (lt, ld) = expr_check(scopes, funcs, *lhs);
            let (rt, rd) = expr_check(scopes, funcs, *rhs);
            match (lt, rt) {
                (Some(a), Some(b)) => if a == b || (is_numeric_spec(a) && is_numeric_spec(b)) {
                    (Some(ClassicalType::Bool), ld + rd)
                } else {
                    (
                        None,
                        (ld + rd).push(err("comparison operands have incompatible types"@, span)),
                    )
                },
                _ => (None, ld + rd),
            }
        },
    }
}

/// Diagnostics of the arguments of a call to an unknown function.
pub open spec fn args_diags(
    scopes: Seq<Map<Seq<char>, Symbol>>,
    funcs: Map<Seq<char>, FunctionSigView>,
    args: Seq<Expr>,
) -> Seq<DiagText>
    decreases args, 0nat,
{
    if args.len() == 0 {
        seq![]
    } else {
        proof {
            assert(decreases_to!(args => args.drop_last()));
            assert(decreases_to!(args => args[args.len() - 1]));
        }
        args_diags(scopes, funcs, args.drop_last()) + expr_check(scopes, funcs, args.last()).1
    }
}

/// Diagnostics of the arguments of a call to a known function: each
/// argument's own, then a type mismatch against its parameter.
pub open spec fn args_check(
    scopes: Seq<Map<Seq<char>, Symbol>>,
    funcs: Map<Seq<char>, FunctionSigView>,
    name: Seq<char>,
    params: Seq<ClassicalType>,
    args: Seq<Expr>,
) -> Seq<DiagText>
    decreases args, 0nat,
{
    if args.len() == 0 {
        seq![]
    } else {
        proof {
            assert(decreases_to!(args => args.drop_last()));
            assert(decreases_to!(args => args[args.len() - 1]));
        }
        let i = args.len() - 1;
        let (t, d) = expr_check(scopes, funcs, args.last());
        let mismatch = match t {
            Some(a) => if i < params.len() && !assignable_spec(params[i], a) {
                seq![
                    err(
                        "argument "@ + dec(i + 1) + " to `"@ + name + "` must be "@ + tt(params[i])
                            + ", found "@ + tt(a),
                        expr_span(args.last()),
                    ),
                ]
            } else {
                seq![]
            },
            None => seq![],
        };
        args_check(scopes, funcs, name, params, args.drop_last()) + d + mismatch
    }
}

/// Diagnostics of checking `e` against an expected type.
pub open spec fn require_type_diags(
    scopes: Seq<Map<Seq<char>, Symbol>>,
    funcs: Map<Seq<char>, FunctionSigView>,
    e: Expr,
    expected: ClassicalType,
    context: Seq<char>,
) -> Seq<DiagText> {
    let (t, d) = expr_check(scopes, funcs, e);
    match t {
        Some(a) => if !assignable_spec(expected, a) {
            d.push(
                err(context + " must have type "@ + tt(expected) + ", found "@ + tt(a), expr_span(e)),
            )
        } else {
            d
        },
        None => d,
    }
}

/// Diagnostics of `e`, plus one when its type is not numeric.
pub open spec fn numeric_diags(
    scopes: Seq<Map<Seq<char>, Symbol>>,
    funcs: Map<Seq<char>, FunctionSigView>,
    e: Expr,
    message: Seq<char>,
) -> Seq<DiagText> {
    let (t, d) = expr_check(scopes, funcs, e);
    match t {
        Some(a) => if !is_numeric_spec(a) {
            d.push(err(message, expr_span(e)))
        } else {
            d
        },
        None => d,
    }
}

/// Diagnostics of a modifier list.
pub open spec fn modifiers_diags(
    scopes: Seq<Map<Seq<char>, Symbol>>,
    funcs: Map<Seq<char>, FunctionSigView>,
    mods: Seq<GateModifier>,
) -> Seq<DiagText>
    decreases mods.len(),
{
    if mods.len() == 0 {
        seq![]
    } else {
        let d = match mods.last() {
            GateModifier::Ctrl(Some(arg), span) | GateModifier::NegCtrl(Some(arg), span) => {
                let positive = match const_int(arg) {
                    Some(v) => v > 0,
                    None => false,
                };
                let r = require_type_diags(
                    scopes,
                    funcs,
                    arg,
                    ClassicalType::Int,
                    "control modifier argument"@,
                );
                if positive {
                    r
                } else {
                    r.push(err("control count must be a positive compile-time integer"@, span))
                }
            },
            GateModifier::Pow(e, _) => numeric_diags(
                scopes,
                funcs,
                e,
                "power modifier argument must be numeric"@,
            ),
            _ => seq![],
        };
        modifiers_diags(scopes, funcs, mods.drop_last()) + d
    }
}

/// Diagnostics of a list of gate parameters.
pub open spec fn params_diags(
    scopes: Seq<Map<Seq<char>, Symbol>>,
    funcs: Map<Seq<char>, FunctionSigView>,
    params: Seq<Expr>,
) -> Seq<DiagText>
    decreases params.len(),
{
    if params.len() == 0 {
        seq![]
    } else {
        params_diags(scopes, funcs, params.drop_last()) + numeric_diags(
            scopes,
            funcs,
            params.last(),
            "gate parameters must be numeric"@,
        )
    }
}

// ── Quantum operands ────────────────────────────────────────

pub open spec fn kind_matches(expected: SymbolKind, found: SymbolKind) -> bool {
    ||| expected == SymbolKind::Qubit && (found == SymbolKind::Qubit || found
        == SymbolKind::GateQubit)
    ||| expected == SymbolKind::Bit && found == SymbolKind::Bit
}

pub open spec fn expected_text(k: SymbolKind) -> Seq<char> {
    match k {
        SymbolKind::Qubit => "qubit"@,
        SymbolKind::Bit => "bit"@,
        _ => "quantum operand"@,
    }
}

pub open spec fn kind_text(k: SymbolKind) -> Seq<char> {
    match k {
        SymbolKind::Qubit => "qubit"@,
        SymbolKind::Bit => "bit"@,
        SymbolKind::Classical(t) => tt(t),
        SymbolKind::Const(t) => "const "@ + tt(t),
        SymbolKind::GateParam => "gate parameter"@,
        SymbolKind::GateQubit => "gate qubit"@,
    }
}

/// Diagnostics of a quantum operand, checked against an expected kind.
pub open spec fn operand_diags(
    scopes: Seq<Map<Seq<char>, Symbol>>,
    op: GateOperand,
    expected: Option<SymbolKind>,
) -> Seq<DiagText> {
    let name = op.name@;
    match lookup_symbol(scopes, name) {
        None => seq![err(not_declared(name), op.span)],
        Some(sym) => {
            let found = kind_text(sym.kind);
            let kind_d = match expected {
                Some(x) => if kind_matches(x, sym.kind) {
                    seq![]
                } else {
                    seq![
                        err_note(
                            "expected "@ + expected_text(x) + ", but `"@ + name + "` is a "@
                                + found,
                            op.span,
                            "`"@ + name + "` declared as "@ + found + " here"@,
                            sym.decl_span,
                        ),
                    ]
                },
                None => seq![],
            };
            if sym.kind == SymbolKind::GateQubit && (op.index is Some || op.slice is Some) {
                kind_d.push(
                    err(
                        "cannot index gate qubit `"@ + name
                            + "` — gate qubits are single wires"@,
                        op.span,
                    ),
                )
            } else {
                let index_d = match op.index {
                    Some(i) => match sym.size {
                        Some(n) => if i >= n {
                            seq![
                                err_note(
                                    "index "@ + dec(i as int) + " is out of bounds for `"@ + name
                                        + "` (size "@ + dec(n as int) + ")"@,
                                    op.span,
                                    "`"@ + name + "` declared with size "@ + dec(n as int)
                                        + " here"@,
                                    sym.decl_span,
                                ),
                            ]
                        } else {
                            seq![]
                        },
                        None => seq![
                            err_note(
                                "cannot index `"@ + name
                                    + "` — it is a single qubit/bit, not a register"@,
                                op.span,
                                "`"@ + name + "` declared without a size here"@,
                                sym.decl_span,
                            ),
                        ],
                    },
                    None => seq![],
                };
                let slice_d = match op.slice {
                    Some((a, b)) => match sym.size {
                        Some(n) => if a <= b && b < n {
                            seq![]
                        } else {
                            seq![
                                err_note(
                                    "slice "@ + dec(a as int) + ":"@ + dec(b as int)
                                        + " is out of bounds for `"@ + name + "` (size "@ + dec(
                                        n as int,
                                    ) + ")"@,
                                    op.span,
                                    "`"@ + name + "` declared with size "@ + dec(n as int)
                                        + " here"@,
                                    sym.decl_span,
                                ),
                            ]
                        },
                        None => seq![err("cannot slice scalar `"@ + name + "`"@, op.span)],
                    },
                    None => seq![],
                };
                kind_d + index_d + slice_d
            }
        },
    }
}

/// Number of wires an operand names, when it is declared.
pub open spec fn operand_width_spec(scopes: Seq<Map<Seq<char>, Symbol>>, op: GateOperand) -> Option<
    u64,
> {
    match lookup_symbol(scopes, op.name@) {
        None => None,
        Some(sym) => match op.slice {
            Some((a, b)) => if b < a || b - a + 1 > u64::MAX {
                None
            } else {
                Some((b - a + 1) as u64)
            },
            None => if op.index is Some {
                Some(1)
            } else {
                match sym.size {
                    Some(n) => Some(n),
                    None => Some(1),
                }
            },
        },
    }
}

/// The span of the measurement that made `name[index]` (or all of `name`)
/// measured.
pub open spec fn lookup_measured_spec(m: Map<QubitKey, Span>, name: Seq<char>, index: Option<u64>) -> Option<
    Span,
> {
    if m.contains_key((name, index)) {
        Some(m[(name, index)])
    } else if index is Some && m.contains_key((name, None)) {
        Some(m[(name, None)])
    } else {
        None
    }
}

/// The first index in `i..=b` of `name` that is measured.
pub open spec fn first_measured(m: Map<QubitKey, Span>, name: Seq<char>, i: int, b: int) -> Option<
    u64,
>
    decreases b - i + 1,
{
    if i > b || i < 0 || i > u64::MAX {
        None
    } else if lookup_measured_spec(m, name, Some(i as u64)) is Some {
        Some(i as u64)
    } else {
        first_measured(m, name, i + 1, b)
    }
}

/// The diagnostic for using a measured operand, if it is measured.
pub open spec fn use_after_measure_diags(
    m: Map<QubitKey, Span>,
    op: GateOperand,
    use_span: Span,
) -> Seq<DiagText> {
    let name = op.name@;
    match op.slice {
        Some((a, b)) => match first_measured(m, name, a as int, b as int) {
            Some(i) => seq![
                err_note(
                    "use of qubit `"@ + name + "["@ + dec(i as int) + "]` after measurement"@,
                    use_span,
                    "qubit was measured here"@,
                    lookup_measured_spec(m, name, Some(i)).unwrap(),
                ),
            ],
            None => seq![],
        },
        None => match lookup_measured_spec(m, name, op.index) {
            Some(s) => seq![
                err_note(
                    "use of qubit `"@ + operand_text(op)
                        + "` after measurement — qubit state has collapsed and cannot be used in a gate without an explicit `reset`"@,
                    use_span,
                    "qubit was measured here"@,
                    s,
                ),
            ],
            None => seq![],
        },
    }
}

/// Diagnostics of the qubit operands of a gate, barrier or delay.
pub open spec fn operands_diags(
    scopes: Seq<Map<Seq<char>, Symbol>>,
    m: Map<QubitKey, Span>,
    ops: Seq<GateOperand>,
    use_span: Span,
) -> Seq<DiagText>
    decreases ops.len(),
{
    if ops.len() == 0 {
        seq![]
    } else {
        operands_diags(scopes, m, ops.drop_last(), use_span) + operand_diags(
            scopes,
            ops.last(),
            Some(SymbolKind::Qubit),
        ) + use_after_measure_diags(m, ops.last(), use_span)
    }
}

/// The indices `lo <= i < hi` of register `name`, all mapped to `span`.
pub open spec fn index_range(name: Seq<char>, lo: int, hi: int, span: Span) -> Map<QubitKey, Span> {
    Map::new(
        |k: QubitKey| k.0 == name && k.1 is Some && lo <= k.1.unwrap() < hi,
        |k: QubitKey| span,
    )
}

/// Measured set after measuring `op`.
pub open spec fn mark_spec(
    m: Map<QubitKey, Span>,
    scopes: Seq<Map<Seq<char>, Symbol>>,
    op: GateOperand,
    span: Span,
) -> Map<QubitKey, Span> {
    let name = op.name@;
    match op.slice {
        Some((a, b)) => m.union_prefer_right(index_range(name, a as int, b + 1, span)),
        None => {
            let m1 = m.insert((name, op.index), span);
            if op.index is None {
                match lookup_symbol(scopes, name) {
                    Some(sym) => match sym.size {
                        Some(n) => m1.union_prefer_right(index_range(name, 0, n as int, span)),
                        None => m1,
                    },
                    None => m1,
                }
            } else {
                m1
            }
        },
    }
}

/// Measured set after resetting `op`.
pub open spec fn clear_spec(m: Map<QubitKey, Span>, op: GateOperand) -> Map<QubitKey, Span> {
    let name = op.name@;
    match op.slice {
        Some((a, b)) => m.remove_keys(index_range(name, a as int, b + 1, op.span).dom()),
        None => if op.index is None {
            m.remove_keys(Set::new(|k: QubitKey| k.0 == name))
        } else {
            m.remove((name, op.index))
        },
    }
}


// ── Statements ──────────────────────────────────────────────

/// Arity of a gate: a definition of the program first, then a standard gate;
/// the definition's span comes with it.
pub open spec fn gate_signature(gates: Map<Seq<char>, GateSig>, name: Seq<char>) -> Option<
    (usize, usize, Option<Span>),
> {
    if gates.contains_key(name) {
        let g = gates[name];
        Some((g.param_count, g.qubit_count, Some(g.decl_span)))
    } else {
        match standard_sig(name) {
            Some((p, q)) => Some((p, q, None)),
            None => None,
        }
    }
}

pub open spec fn maybe_note(message: Seq<char>, span: Span, name: Seq<char>, decl: Option<Span>) -> DiagText {
    match decl {
        Some(d) => err_note(message, span, "`"@ + name + "` defined here"@, d),
        None => err(message, span),
    }
}

/// Qubits a gate call must name: its own plus one per control,
/// saturating at `usize::MAX`.
pub open spec fn expected_qubits(qubit_count: usize, mods: Seq<GateModifier>) -> int {
    let c = match control_count(mods) {
        Some(c) => c,
        None => 0,
    };
    if qubit_count + c > usize::MAX {
        usize::MAX as int
    } else {
        qubit_count + c
    }
}

/// Arity diagnostics of a gate call.
pub open spec fn arity_diags(
    gates: Map<Seq<char>, GateSig>,
    name: Seq<char>,
    mods: Seq<GateModifier>,
    n_params: int,
    n_args: int,
    span: Span,
) -> Seq<DiagText> {
    match gate_signature(gates, name) {
        None => seq![err("gate `"@ + name + "` is not defined"@, span)],
        Some((pc, qc, decl)) => {
            let want = expected_qubits(qc, mods);
            let p = if n_params != pc {
                seq![
                    maybe_note(
                        "gate `"@ + name + "` expects "@ + dec(pc as int) + " parameter(s), got "@
                            + dec(n_params),
                        span,
                        name,
                        decl,
                    ),
                ]
            } else {
                seq![]
            };
            let q = if n_args != want {
                seq![
                    maybe_note(
                        "gate `"@ + name + "` expects "@ + dec(want)
                            + " qubit(s) after modifiers, got "@ + dec(n_args),
                        span,
                        name,
                        decl,
                    ),
                ]
            } else {
                seq![]
            };
            p + q
        },
    }
}

/// Width of an operand that names more than one wire.
pub open spec fn wide_width(scopes: Seq<Map<Seq<char>, Symbol>>, op: GateOperand) -> Option<u64> {
    match operand_width_spec(scopes, op) {
        Some(w) => if w > 1 {
            Some(w)
        } else {
            None
        },
        None => None,
    }
}

/// Two operands of a call name registers of different widths above one.
pub open spec fn broadcast_mismatch(scopes: Seq<Map<Seq<char>, Symbol>>, ops: Seq<GateOperand>) -> bool {
    exists|i: int, j: int|
        0 <= i < ops.len() && 0 <= j < ops.len() && (#[trigger] wide_width(scopes, ops[i])) is Some
            && (#[trigger] wide_width(scopes, ops[j])) is Some && wide_width(scopes, ops[i])
            != wide_width(scopes, ops[j])
}

pub open spec fn gate_call_step(
    st: SemaState,
    name: Seq<char>,
    mods: Seq<GateModifier>,
    params: Seq<Expr>,
    args: Seq<GateOperand>,
    span: Span,
) -> SemaState {
    let sc = st.scopes;
    let f = st.functions;
    with_diags(
        st,
        arity_diags(st.gates, name, mods, params.len() as int, args.len() as int, span)
            + modifiers_diags(sc, f, mods) + params_diags(sc, f, params) + operands_diags(
            sc,
            st.measured,
            args,
            span,
        ) + if broadcast_mismatch(sc, args) {
            seq![
                err(
                    "gate register operands must have the same length for broadcasting"@,
                    span,
                ),
            ]
        } else {
            seq![]
        },
    )
}

pub open spec fn classical_decl_step(
    st: SemaState,
    qualifier: Option<ClassicalQualifier>,
    ty: ClassicalType,
    name: Seq<char>,
    init: Option<Expr>,
    span: Span,
) -> SemaState {
    let is_const = qualifier == Some(ClassicalQualifier::Const);
    let kind = if is_const {
        SymbolKind::Const(ty)
    } else {
        SymbolKind::Classical(ty)
    };
    let st1 = declare_spec(st, name, kind, None, span);
    let d_const = if is_const && init is None {
        seq![err("const `"@ + name + "` requires an initializer"@, span)]
    } else {
        seq![]
    };
    let d_input = if qualifier == Some(ClassicalQualifier::Input) && init is Some {
        seq![err("input `"@ + name + "` cannot have an initializer"@, span)]
    } else {
        seq![]
    };
    let d_init = match init {
        Some(e) => {
            let (t, d) = expr_check(st1.scopes, st1.functions, e);
            match t {
                Some(a) => if !assignable_spec(ty, a) {
                    d.push(
                        err(
                            "cannot initialize "@ + tt(ty) + " `"@ + name + "` with "@ + tt(a)
                                + " expression"@,
                            expr_span(e),
                        ),
                    )
                } else {
                    d
                },
                None => d,
            }
        },
        None => seq![],
    };
    with_diags(st1, d_const + d_input + d_init)
}

pub open spec fn assignment_step(
    st: SemaState,
    name: Seq<char>,
    op: AssignOp,
    value: Expr,
    span: Span,
) -> SemaState {
    let (actual, d) = expr_check(st.scopes, st.functions, value);
    let d2 = match lookup_symbol(st.scopes, name) {
        None => seq![err(not_declared(name), span)],
        Some(sym) => match sym.kind {
            SymbolKind::Classical(expected) => match actual {
                Some(a) => {
                    let mismatch = if !assignable_spec(expected, a) {
                        seq![
                            err(
                                "cannot assign "@ + tt(a) + " expression to "@ + tt(expected)
                                    + " `"@ + name + "`"@,
                                expr_span(value),
                            ),
                        ]
                    } else {
                        seq![]
                    };
                    let compound = if op != AssignOp::Assign && (!is_numeric_spec(expected)
                        || !is_numeric_spec(a)) {
                        seq![err("compound assignment requires numeric operands"@, span)]
                    } else {
                        seq![]
                    };
                    mismatch + compound
                },
                None => seq![],
            },
            SymbolKind::Const(_) => seq![err("cannot assign to const `"@ + name + "`"@, span)],
            _ => seq![err("`"@ + name + "` is not an assignable classical variable"@, span)],
        },
    };
    with_diags(st, d + d2)
}

/// A scope binding each name to `sym`, in order.
pub open spec fn bind_all(base: Map<Seq<char>, Symbol>, names: Seq<String>, sym: Symbol) -> Map<
    Seq<char>,
    Symbol,
>
    decreases names.len(),
{
    if names.len() == 0 {
        base
    } else {
        bind_all(base, names.drop_last(), sym).insert(names.last()@, sym)
    }
}

/// A scope binding each typed parameter name as a classical variable.
pub open spec fn bind_params(params: Seq<(ClassicalType, String)>, span: Span) -> Map<
    Seq<char>,
    Symbol,
>
    decreases params.len(),
{
    if params.len() == 0 {
        Map::empty()
    } else {
        bind_params(params.drop_last(), span).insert(
            params.last().1@,
            Symbol { kind: SymbolKind::Classical(params.last().0), size: None, decl_span: span },
        )
    }
}

pub open spec fn function_def_step(
    st: SemaState,
    name: Seq<char>,
    params: Seq<(ClassicalType, String)>,
    return_type: ClassicalType,
    body: Expr,
    span: Span,
) -> SemaState {
    let st1 = if st.functions.contains_key(name) {
        with_diags(
            st,
            seq![
                err_note(
                    "function `"@ + name + "` is already defined"@,
                    span,
                    "first defined here"@,
                    st.functions[name].2,
                ),
            ],
        )
    } else {
        SemaState {
            functions: st.functions.insert(
                name,
                (params.map_values(|p: (ClassicalType, String)| p.0), return_type, span),
            ),
            ..st
        }
    };
    let scopes = st1.scopes.push(bind_params(params, span));
    let (t, d) = expr_check(scopes, st1.functions, body);
    let d2 = match t {
        Some(a) => if !assignable_spec(return_type, a) {
            seq![
                err(
                    "function `"@ + name + "` returns "@ + tt(return_type)
                        + ", but its body has type "@ + tt(a),
                    expr_span(body),
                ),
            ]
        } else {
            seq![]
        },
        None => seq![],
    };
    with_diags(st1, d + d2)
}

pub open spec fn measure_step(st: SemaState, qubit: GateOperand, target: Option<GateOperand>, span: Span) -> SemaState {
    let sc = st.scopes;
    let d1 = operand_diags(sc, qubit, Some(SymbolKind::Qubit));
    let d2 = match target {
        Some(t) => operand_diags(sc, t, Some(SymbolKind::Bit)) + match (
            operand_width_spec(sc, qubit),
            operand_width_spec(sc, t),
        ) {
            (Some(a), Some(b)) => if a != b {
                seq![
                    err_note(
                        "measurement source has "@ + dec(a as int) + " qubit(s), but target has "@
                            + dec(b as int) + " bit(s)"@,
                        span,
                        "measurement target declared here"@,
                        t.span,
                    ),
                ]
            } else {
                seq![]
            },
            _ => seq![],
        },
        None => seq![],
    };
    let d3 = if lookup_measured_spec(st.measured, qubit.name@, qubit.index) is Some {
        seq![warn("qubit `"@ + operand_text(qubit) + "` has already been measured"@, span)]
    } else {
        seq![]
    };
    with_measured(with_diags(st, d1 + d2 + d3), mark_spec(st.measured, sc, qubit, span))
}

/// Diagnostics of a `for` header: the variable's type and the range bounds.
pub open spec fn for_header_diags(
    sc: Seq<Map<Seq<char>, Symbol>>,
    f: Map<Seq<char>, FunctionSigView>,
    var_ty: ClassicalType,
    range: ForRange,
    span: Span,
) -> Seq<DiagText> {
    let d0 = if var_ty != ClassicalType::Int {
        seq![err("for-loop variable must have type int"@, span)]
    } else {
        seq![]
    };
    d0 + require_type_diags(sc, f, range.start, ClassicalType::Int, "for-loop range bound"@)
        + require_type_diags(sc, f, range.end, ClassicalType::Int, "for-loop range bound"@)
        + match range.step {
        Some(e) => require_type_diags(sc, f, e, ClassicalType::Int, "for-loop range step"@),
        None => seq![],
    }
}

/// The state after one statement.
pub open spec fn stmt_step(st: SemaState, s: Stmt) -> SemaState
    decreases s, 0nat,
{
    match s {
        Stmt::Include { .. } => st,
        Stmt::QubitDecl { name, size, span } => declare_spec(
            st,
            name@,
            SymbolKind::Qubit,
            size,
            span,
        ),
        Stmt::BitDecl { name, size, span } => declare_spec(st, name@, SymbolKind::Bit, size, span),
        Stmt::ClassicalDecl { qualifier, ty, name, init, span } => classical_decl_step(
            st,
            qualifier,
            ty,
            name@,
            init,
            span,
        ),
        Stmt::Assignment { name, op, value, span } => assignment_step(st, name@, op, value, span),
        Stmt::GateCall { name, modifiers, params, args, span } => gate_call_step(
            st,
            name@,
            modifiers@,
            params@,
            args@,
            span,
        ),
        Stmt::GateDef { name, params, qparams, body, span } => {
            proof {
                assert(decreases_to!(s => body));
                assert(decreases_to!(body => body@));
            }
            let d = if st.gates.contains_key(name@) {
                seq![err("gate `"@ + name@ + "` is already defined"@, span)]
            } else {
                seq![]
            };
            let scope = bind_all(
                bind_all(
                    Map::empty(),
                    params@,
                    Symbol { kind: SymbolKind::GateParam, size: None, decl_span: span },
                ),
                qparams@,
                Symbol { kind: SymbolKind::GateQubit, size: None, decl_span: span },
            );
            let st1 = SemaState {
                gates: st.gates.insert(
                    name@,
                    GateSig {
                        param_count: params@.len() as usize,
                        qubit_count: qparams@.len() as usize,
                        decl_span: span,
                    },
                ),
                scopes: st.scopes.push(scope),
                diags: st.diags + d,
                ..st
            };
            pop_scope(stmts_step(st1, body@))
        },
        Stmt::FunctionDef { name, params, return_type, body, span } => function_def_step(
            st,
            name@,
            params@,
            return_type,
            body,
            span,
        ),
        Stmt::Measure { qubit, target, span } => measure_step(st, qubit, target, span),
        Stmt::Reset { target, .. } => with_measured(
            with_diags(st, operand_diags(st.scopes, target, Some(SymbolKind::Qubit))),
            clear_spec(st.measured, target),
        ),
        Stmt::Barrier { targets, span } => with_diags(
            st,
            operands_diags(st.scopes, st.measured, targets@, span),
        ),
        Stmt::Delay { duration, targets, span } => with_diags(
            st,
            numeric_diags(st.scopes, st.functions, duration, "delay duration must be numeric"@)
                + operands_diags(st.scopes, st.measured, targets@, span),
        ),
        Stmt::If { condition, then_body, else_body, .. } => {
            proof {
                assert(decreases_to!(s => then_body));
                assert(decreases_to!(then_body => then_body@));
            }
            let st1 = with_diags(
                st,
                require_type_diags(
                    st.scopes,
                    st.functions,
                    condition,
                    ClassicalType::Bool,
                    "if condition"@,
                ),
            );
            let before = st1.measured;
            let st2 = pop_scope(stmts_step(push_scope(st1), then_body@));
            let after_then = st2.measured;
            match else_body {
                Some(eb) => {
                    proof {
                        assert(decreases_to!(s => else_body));
                        assert(decreases_to!(else_body => eb));
                        assert(decreases_to!(eb => eb@));
                    }
                    let st3 = pop_scope(stmts_step(push_scope(with_measured(st2, before)), eb@));
                    with_measured(st3, st3.measured.union_prefer_right(after_then))
                },
                None => with_measured(st2, after_then.union_prefer_right(before)),
            }
        },
        Stmt::For { var_name, var_ty, range, body, span } => {
            proof {
                assert(decreases_to!(s => body));
                assert(decreases_to!(body => body@));
            }
            let st1 = with_diags(st, for_header_diags(st.scopes, st.functions, var_ty, range, span));
            let before = st1.measured;
            let st2 = SemaState {
                scopes: st1.scopes.push(
                    Map::empty().insert(
                        var_name@,
                        Symbol { kind: SymbolKind::Classical(var_ty), size: None, decl_span: span },
                    ),
                ),
                ..st1
            };
            let st3 = pop_scope(stmts_step(st2, body@));
            with_measured(st3, st3.measured.union_prefer_right(before))
        },
        Stmt::While { condition, body, .. } => {
            proof {
                assert(decreases_to!(s => body));
                assert(decreases_to!(body => body@));
            }
            let st1 = with_diags(
                st,
                require_type_diags(
                    st.scopes,
                    st.functions,
                    condition,
                    ClassicalType::Bool,
                    "while condition"@,
                ),
            );
            let before = st1.measured;
            let st3 = pop_scope(stmts_step(push_scope(st1), body@));
            with_measured(st3, st3.measured.union_prefer_right(before))
        },
    }
}

/// The state after a list of statements, in order.
pub open spec fn stmts_step(st: SemaState, ss: Seq<Stmt>) -> SemaState
    decreases ss, 0nat,
{
    if ss.len() == 0 {
        st
    } else {
        proof {
            assert(decreases_to!(ss => ss.drop_last()));
            assert(decreases_to!(ss => ss[ss.len() - 1]));
        }
        stmt_step(stmts_step(st, ss.drop_last()), ss.last())
    }
}

/// The state in which analysis of a program starts.
pub open spec fn initial_state() -> SemaState {
    SemaState {
        scopes: seq![Map::empty()],
        gates: Map::empty(),
        functions: Map::empty(),
        measured: Map::empty(),
        diags: seq![],
    }
}

/// The diagnostics of a whole program.
pub open spec fn program_diags(p: Program) -> Seq<DiagText> {
    stmts_step(initial_state(), p.statements@).diags
}

// ── Measured qubits ─────────────────────────────────────────

/// The span bound last to key `k` in `s`.
pub open spec fn lookup_key(s: Seq<(String, Option<u64>, Span)>, k: QubitKey) -> Option<Span>
    decreases s.len(),
{
    if s.len() == 0 {
        None
    } else if (s.last().0@, s.last().1) == k {
        Some(s.last().2)
    } else {
        lookup_key(s.drop_last(), k)
    }
}

pub open spec fn entries_map(s: Seq<(String, Option<u64>, Span)>) -> Map<QubitKey, Span> {
    Map::new(|k: QubitKey| lookup_key(s, k) is Some, |k: QubitKey| lookup_key(s, k).unwrap())
}

/// Keys of register `name`: every index when `only` is `None`, else the one
/// key `(name, i)` for `only == Some(i)`.
pub open spec fn selected(k: QubitKey, name: Seq<char>, only: Option<Option<u64>>) -> bool {
    k.0 == name && match only {
        Some(i) => k.1 == i,
        None => true,
    }
}

proof fn lemma_same_lookup(a: Seq<(String, Option<u64>, Span)>, b: Seq<(String, Option<u64>, Span)>, k: QubitKey)
    requires
        entries_map(a) == entries_map(b),
    ensures
        lookup_key(a, k) == lookup_key(b, k),
{
    assert(entries_map(a).dom().contains(k) == (lookup_key(a, k) is Some));
    assert(entries_map(b).dom().contains(k) == (lookup_key(b, k) is Some));
    if lookup_key(a, k) is Some {
        assert(entries_map(a)[k] == lookup_key(a, k).unwrap());
        assert(entries_map(b)[k] == lookup_key(b, k).unwrap());
    }
}

/// Measured qubits with the span of their measurement.
struct MeasuredSet {
    entries: Vec<(String, Option<u64>, Span)>,
}

impl View for MeasuredSet {
    type V = Map<QubitKey, Span>;

    closed spec fn view(&self) -> Map<QubitKey, Span> {
        entries_map(self.entries@)
    }
}

fn opt_eq(a: Option<u64>, b: Option<u64>) -> (r: bool)
    ensures
        r == (a == b),
{
    match (a, b) {
        (Some(x), Some(y)) => x == y,
        (None, None) => true,
        _ => false,
    }
}

impl MeasuredSet {
    fn new() -> (r: Self)
        ensures
            r@ == Map::<QubitKey, Span>::empty(),
    {
        let r = MeasuredSet { entries: Vec::new() };
        assert(r@ =~= Map::<QubitKey, Span>::empty());
        r
    }

    fn get(&self, name: &str, index: Option<u64>) -> (r: Option<Span>)
        ensures
            r == self@.get((name@, index)),
    {
        let ghost s = self.entries@;
        let ghost k = (name@, index);
        let mut i: usize = self.entries.len();
        assert(s.take(i as int) =~= s);
        while i > 0
            invariant
                s == self.entries@,
                k == (name@, index),
                i <= s.len(),
                lookup_key(s, k) == lookup_key(s.take(i as int), k),
            decreases i,
        {
            assert(s.take(i as int).drop_last() =~= s.take(i - 1));
            let e = &self.entries[i - 1];
            assert(s.take(i as int).last() == s[i - 1]);
            let same_name = str_eq(e.0.as_str(), name);
            let same_index = opt_eq(e.1, index);
            if same_name && same_index {
                assert((e.0@, e.1) == k);
                return Some(e.2);
            }
            assert((e.0@, e.1) != k);
            i -= 1;
        }
        None
    }

    fn insert(&mut self, name: &str, index: Option<u64>, span: Span)
        ensures
            final(self)@ == old(self)@.insert((name@, index), span),
    {
        let ghost k = (name@, index);
        self.entries.push((string_of(name), index, span));
        proof {
            let s = self.entries@;
            assert(s.drop_last() =~= old(self).entries@);
            assert forall|j: QubitKey| #[trigger]
                lookup_key(s, j) == (if j == k {
                    Some(span)
                } else {
                    lookup_key(old(self).entries@, j)
                }) by {}
            assert(self@ =~= old(self)@.insert(k, span));
        }
    }

    /// The set without the keys `selected` by `name` and `only`.
    fn without(&self, name: &str, only: Option<Option<u64>>) -> (r: Self)
        ensures
            r@ == self@.remove_keys(Set::new(|k: QubitKey| selected(k, name@, only))),
    {
        let ghost s = self.entries@;
        let mut out: Vec<(String, Option<u64>, Span)> = Vec::new();
        let mut i: usize = 0;
        while i < self.entries.len()
            invariant
                s == self.entries@,
                i <= s.len(),
                forall|k: QubitKey| #[trigger]
                    lookup_key(out@, k) == (if selected(k, name@, only) {
                        None
                    } else {
                        lookup_key(s.take(i as int), k)
                    }),
            decreases s.len() - i,
        {
            assert(s.take(i + 1).drop_last() =~= s.take(i as int));
            assert(s.take(i + 1).last() == s[i as int]);
            let e = &self.entries[i];
            let hit = str_eq(e.0.as_str(), name) && match only {
                Some(x) => opt_eq(e.1, x),
                None => true,
            };
            let ghost before = out@;
            if !hit {
                out.push((e.0.clone(), e.1, e.2));
                assert(out@.drop_last() =~= before);
            }
            proof {
                assert forall|k: QubitKey| #[trigger]
                    lookup_key(out@, k) == (if selected(k, name@, only) {
                        None
                    } else {
                        lookup_key(s.take(i + 1), k)
                    }) by {
                    assert(lookup_key(s.take(i + 1), k) == (if (s[i as int].0@, s[i as int].1)
                        == k {
                        Some(s[i as int].2)
                    } else {
                        lookup_key(s.take(i as int), k)
                    }));
                    assert(lookup_key(before, k) == (if selected(k, name@, only) {
                        None
                    } else {
                        lookup_key(s.take(i as int), k)
                    }));
                }
            }
            i += 1;
        }
        assert(s.take(s.len() as int) =~= s);
        let r = MeasuredSet { entries: out };
        assert(r@ =~= self@.remove_keys(Set::new(|k: QubitKey| selected(k, name@, only))));
        r
    }

    fn remove(&mut self, name: &str, index: Option<u64>)
        ensures
            final(self)@ == old(self)@.remove((name@, index)),
    {
        let r = self.without(name, Some(index));
        assert(r@ =~= old(self)@.remove((name@, index)));
        *self = r;
    }

    fn remove_register(&mut self, name: &str)
        ensures
            final(self)@ == old(self)@.remove_keys(Set::new(|k: QubitKey| k.0 == name@)),
    {
        let r = self.without(name, None);
        assert(r@ =~= old(self)@.remove_keys(Set::new(|k: QubitKey| k.0 == name@)));
        *self = r;
    }

    fn copy(&self) -> (r: Self)
        ensures
            r@ == self@,
    {
        let mut out: Vec<(String, Option<u64>, Span)> = Vec::new();
        let mut i: usize = 0;
        while i < self.entries.len()
            invariant
                i <= self.entries@.len(),
                out@ =~= self.entries@.take(i as int),
            decreases self.entries@.len() - i,
        {
            let e = &self.entries[i];
            out.push((e.0.clone(), e.1, e.2));
            i += 1;
        }
        assert(self.entries@.take(self.entries@.len() as int) =~= self.entries@);
        MeasuredSet { entries: out }
    }

    /// `extra` with every key of `self` added or overriding.
    fn merged_over(&self, extra: &MeasuredSet) -> (r: Self)
        ensures
            r@ == extra@.union_prefer_right(self@),
    {
        let ghost s = self.entries@;
        let mut out = extra.copy();
        let mut i: usize = 0;
        proof {
            assert(s.take(0) =~= Seq::<(String, Option<u64>, Span)>::empty());
            assert forall|k: QubitKey| #[trigger]
                lookup_key(out.entries@, k) == lookup_key(extra.entries@, k) by {
                lemma_same_lookup(out.entries@, extra.entries@, k);
            }
        }
        while i < self.entries.len()
            invariant
                s == self.entries@,
                i <= s.len(),
                forall|k: QubitKey| #[trigger]
                    lookup_key(out.entries@, k) == (match lookup_key(s.take(i as int), k) {
                        Some(v) => Some(v),
                        None => lookup_key(extra.entries@, k),
                    }),
            decreases s.len() - i,
        {
            assert(s.take(i + 1).drop_last() =~= s.take(i as int));
            assert(s.take(i + 1).last() == s[i as int]);
            let e = &self.entries[i];
            let ghost before = out.entries@;
            out.entries.push((e.0.clone(), e.1, e.2));
            proof {
                assert(out.entries@.drop_last() =~= before);
                assert(s.take(i + 1).last() == s[i as int]);
                assert forall|k: QubitKey| #[trigger]
                    lookup_key(out.entries@, k) == (match lookup_key(s.take(i + 1), k) {
                        Some(v) => Some(v),
                        None => lookup_key(extra.entries@, k),
                    }) by {
                    assert(lookup_key(before, k) == (match lookup_key(s.take(i as int), k) {
                        Some(v) => Some(v),
                        None => lookup_key(extra.entries@, k),
                    }));
                }
            }
            i += 1;
        }
        assert(s.take(s.len() as int) =~= s);
        assert(out@ =~= extra@.union_prefer_right(self@));
        out
    }
}

// ── Scoped symbol table ─────────────────────────────────────

struct SymbolTable {
    scopes: Vec<NameMap<Symbol>>,
}

impl View for SymbolTable {
    type V = Seq<Map<Seq<char>, Symbol>>;

    closed spec fn view(&self) -> Seq<Map<Seq<char>, Symbol>> {
        self.scopes@.map_values(|m: NameMap<Symbol>| m@)
    }
}

impl SymbolTable {
    fn new() -> (r: Self)
        ensures
            r@ == seq![Map::<Seq<char>, Symbol>::empty()],
    {
        let mut scopes: Vec<NameMap<Symbol>> = Vec::new();
        scopes.push(NameMap::new());
        let r = SymbolTable { scopes };
        assert(r@ =~= seq![Map::<Seq<char>, Symbol>::empty()]);
        r
    }

    fn push_scope(&mut self)
        ensures
            final(self)@ == old(self)@.push(Map::empty()),
    {
        self.scopes.push(NameMap::new());
        assert(self@ =~= old(self)@.push(Map::empty()));
    }

    fn pop_scope(&mut self)
        requires
            old(self)@.len() > 0,
        ensures
            final(self)@ == old(self)@.drop_last(),
    {
        let _ = self.scopes.pop();
        assert(self@ =~= old(self)@.drop_last());
    }

    fn insert(&mut self, name: String, sym: Symbol)
        requires
            old(self)@.len() > 0,
        ensures
            final(self)@ == insert_symbol(old(self)@, name@, sym),
    {
        let mut last = self.scopes.pop().unwrap();
        last.insert(name, sym);
        self.scopes.push(last);
        assert(self@ =~= insert_symbol(old(self)@, name@, sym));
    }

    fn get(&self, name: &str) -> (r: Option<Symbol>)
        ensures
            r == lookup_symbol(self@, name@),
    {
        let ghost v = self@;
        let mut i: usize = self.scopes.len();
        assert(v.take(i as int) =~= v);
        while i > 0
            invariant
                v == self@,
                i <= v.len(),
                lookup_symbol(v, name@) == lookup_symbol(v.take(i as int), name@),
            decreases i,
        {
            assert(v.take(i as int).drop_last() =~= v.take(i - 1));
            match self.scopes[i - 1].get(name) {
                Some(sym) => {
                    return Some(*sym);
                },
                None => {},
            }
            i -= 1;
        }
        None
    }

    /// The symbol named `name` in the innermost scope only.
    fn get_current(&self, name: &str) -> (r: Option<Symbol>)
        requires
            self@.len() > 0,
        ensures
            r == self@.last().get(name@),
    {
        match self.scopes[self.scopes.len() - 1].get(name) {
            Some(sym) => Some(*sym),
            None => None,
        }
    }
}

// ── Rules on types and gates ────────────────────────────────

/// Parameter and qubit counts of a standard gate (case-insensitive).
pub fn standard_gate_signature(name: &str) -> (r: Option<(usize, usize)>)
    ensures
        r == standard_sig(name@),
{
    let is = |w: &str| -> (b: bool)
        ensures
            b == eq_ignore_ascii_case_spec(name@, w@),
        { eq_ignore_ascii_case(name, w) };
    if is("u") {
        Some((3, 1))
    } else if is("gphase") {
        Some((1, 0))
    } else if is("id") || is("x") || is("y") || is("z") || is("h") || is("s") || is("sdg") || is(
        "t",
    ) || is("tdg") || is("sx") {
        Some((0, 1))
    } else if is("p") || is("rx") || is("ry") || is("rz") {
        Some((1, 1))
    } else if is("cx") || is("cnot") || is("cy") || is("cz") || is("ch") || is("swap") {
        Some((0, 2))
    } else if is("cp") || is("crx") || is("cry") || is("crz") {
        Some((1, 2))
    } else if is("ccx") || is("cswap") {
        Some((0, 3))
    } else {
        None
    }
}

/// Total control count of a modifier list (see [`control_count`]).
pub fn modifier_control_count(modifiers: &Vec<GateModifier>) -> (r: Option<usize>)
    ensures
        r matches Some(n) ==> control_count(modifiers@) == Some(n as int),
        r is None ==> control_count(modifiers@) is None,
{
    let mut total: usize = 0;
    let mut i: usize = 0;
    while i < modifiers.len()
        invariant
            i <= modifiers@.len(),
            control_count(modifiers@.take(i as int)) == Some(total as int),
        decreases modifiers@.len() - i,
    {
        assert(modifiers@.take(i + 1).drop_last() =~= modifiers@.take(i as int));
        match &modifiers[i] {
            GateModifier::Ctrl(arg, _) | GateModifier::NegCtrl(arg, _) => {
                let count: i128 = match arg {
                    Some(e) => match eval_int(e) {
                        Some(v) => v,
                        None => {
                            proof {
                                lemma_control_count_none(modifiers@, i + 1);
                            }
                            return None;
                        },
                    },
                    None => 1,
                };
                if count <= 0 || count > (usize::MAX - total) as i128 {
                    proof {
                        lemma_control_count_none(modifiers@, i + 1);
                    }
                    return None;
                }
                total = total + count as usize;
            },
            _ => {},
        }
        i += 1;
    }
    assert(modifiers@.take(modifiers@.len() as int) =~= modifiers@);
    Some(total)
}

proof fn lemma_control_count_none(mods: Seq<GateModifier>, k: int)
    requires
        0 <= k <= mods.len(),
        control_count(mods.take(k)) is None,
    ensures
        control_count(mods) is None,
    decreases mods.len() - k,
{
    if k < mods.len() {
        assert(mods.take(k + 1).drop_last() =~= mods.take(k));
        lemma_control_count_none(mods, k + 1);
    } else {
        assert(mods.take(k) =~= mods);
    }
}

pub fn classical_type_name(ty: ClassicalType) -> (r: &'static str)
    ensures
        r@ == tt(ty),
{
    ty.text()
}

pub fn is_numeric(ty: ClassicalType) -> (r: bool)
    ensures
        r == is_numeric_spec(ty),
{
    match ty {
        ClassicalType::Bool => false,
        _ => true,
    }
}

pub fn assignable(expected: ClassicalType, actual: ClassicalType) -> (r: bool)
    ensures
        r == assignable_spec(expected, actual),
{
    expected == actual || (expected == ClassicalType::UInt && actual == ClassicalType::Int) || (
    expected == ClassicalType::Angle && actual == ClassicalType::Float) || ((expected
        == ClassicalType::Float || expected == ClassicalType::Angle) && (actual
        == ClassicalType::Int || actual == ClassicalType::UInt))
}

fn promote(a: ClassicalType, b: ClassicalType) -> (r: ClassicalType)
    ensures
        r == promoted(a, b),
{
    if a == ClassicalType::Angle || b == ClassicalType::Angle {
        ClassicalType::Angle
    } else if a == ClassicalType::Float || b == ClassicalType::Float {
        ClassicalType::Float
    } else if a == ClassicalType::Int || b == ClassicalType::Int {
        ClassicalType::Int
    } else {
        ClassicalType::UInt
    }
}

fn copy_types(v: &Vec<ClassicalType>) -> (r: Vec<ClassicalType>)
    ensures
        r@ == v@,
{
    let mut out: Vec<ClassicalType> = Vec::new();
    let mut i: usize = 0;
    while i < v.len()
        invariant
            i <= v@.len(),
            out@ =~= v@.take(i as int),
        decreases v@.len() - i,
    {
        out.push(v[i]);
        i += 1;
    }
    assert(v@.take(v@.len() as int) =~= v@);
    out
}

fn text2(a: &str, b: &str) -> (r: String)
    ensures
        r@ == a@ + b@,
{
    let mut m = string_of(a);
    m.append(b);
    m
}

fn text3(a: &str, b: &str, c: &str) -> (r: String)
    ensures
        r@ == a@ + b@ + c@,
{
    let mut m = text2(a, b);
    m.append(c);
    m
}

// ── Analysis context ────────────────────────────────────────

pub open spec fn functions_view(m: Map<Seq<char>, FunctionSig>) -> Map<Seq<char>, FunctionSigView> {
    Map::new(|k: Seq<char>| m.contains_key(k), |k: Seq<char>| sig_view(m[k]))
}

struct SemaContext {
    symbols: SymbolTable,
    gates: NameMap<GateSig>,
    functions: NameMap<FunctionSig>,
    measured: MeasuredSet,
    diags: Vec<Diagnostic>,
}

impl SemaContext {
    spec fn state(&self) -> SemaState {
        SemaState {
            scopes: self.symbols@,
            gates: self.gates@,
            functions: functions_view(self.functions@),
            measured: self.measured@,
            diags: self.diags@.map_values(|d: Diagnostic| d@),
        }
    }

    fn new() -> (r: Self)
        ensures
            r.state() == initial_state(),
    {
        let r = SemaContext {
            symbols: SymbolTable::new(),
            gates: NameMap::new(),
            functions: NameMap::new(),
            measured: MeasuredSet::new(),
            diags: Vec::new(),
        };
        assert(r.state().diags =~= Seq::<DiagText>::empty());
        assert(functions_view(r.functions@) =~= Map::<Seq<char>, FunctionSigView>::empty());
        r
    }

    fn push_diag(&mut self, d: Diagnostic)
        ensures
            final(self).state() == with_diags(old(self).state(), seq![d@]),
    {
        self.diags.push(d);
        assert(self.state().diags =~= old(self).state().diags + seq![d@]);
    }

    fn error(&mut self, message: String, span: Span)
        ensures
            final(self).state() == with_diags(old(self).state(), seq![err(message@, span)]),
    {
        self.push_diag(Diagnostic::error(message, span));
    }

    fn error_with_note(&mut self, message: String, span: Span, note: String, note_span: Span)
        ensures
            final(self).state() == with_diags(
                old(self).state(),
                seq![err_note(message@, span, note@, note_span)],
            ),
    {
        self.push_diag(Diagnostic::error_with_note(message, span, note, note_span));
    }

    fn declare(&mut self, name: &str, kind: SymbolKind, size: Option<u64>, span: &Span)
        requires
            old(self).state().scopes.len() > 0,
        ensures
            final(self).state() == declare_spec(old(self).state(), name@, kind, size, *span),
    {
        match self.symbols.get_current(name) {
            Some(prev) => {
                let m = text3("`", name, "` is already declared in this scope");
                let n = text3("`", name, "` first declared here");
                self.error_with_note(m, *span, n, prev.decl_span);
            },
            None => {
                self.symbols.insert(
                    string_of(name),
                    Symbol { kind, size, decl_span: *span },
                );
            },
        }
    }

    /// Validate an expression and return its inferred classical type.
    #[verifier::loop_isolation(false)]
    fn check_expr(&mut self, expr: &Expr) -> (r: Option<ClassicalType>)
        ensures
            r == expr_check(old(self).state().scopes, old(self).state().functions, *expr).0,
            final(self).state() == with_diags(
                old(self).state(),
                expr_check(old(self).state().scopes, old(self).state().functions, *expr).1,
            ),
        decreases expr, 1nat,
    {
        let ghost st = self.state();
        let ghost sc = st.scopes;
        let ghost f = st.functions;
        match expr {
            Expr::Ident(..) => self.check_ident(expr),
            Expr::Index { .. } => self.check_index(expr),
            Expr::Call { .. } => self.check_call(expr),
            Expr::IntLit(..) => Some(ClassicalType::Int),
            Expr::FloatLit(..) => Some(ClassicalType::Float),
            Expr::Const(..) => Some(ClassicalType::Float),
            Expr::BoolLit(..) => Some(ClassicalType::Bool),
            Expr::Neg(inner, span) => {
                let t = self.check_expr(inner);
                match t {
                    Some(t) => {
                        if is_numeric(t) {
                            Some(t)
                        } else {
                            self.error(string_of("unary negation requires a numeric operand"), *span);
                            proof {
                                assert(self.state().diags =~= st.diags + expr_check(sc, f, *expr).1);
                            }
                            None
                        }
                    },
                    None => None,
                }
            },
            Expr::BinOp { lhs, rhs, span, .. } => {
                let lt = self.check_expr(lhs);
                let rt = self.check_expr(rhs);
                let r = match (lt, rt) {
                    (Some(a), Some(b)) => {
                        if is_numeric(a) && is_numeric(b) {
                            Some(promote(a, b))
                        } else {
                            self.error(string_of("arithmetic operators require numeric operands"), *span);
                            None
                        }
                    },
                    _ => None,
                };
                proof {
                    assert(self.state().diags =~= st.diags + expr_check(sc, f, *expr).1);
                }
                r
            },
            Expr::Compare { lhs, rhs, span, .. } => {
                let lt = self.check_expr(lhs);
                let rt = self.check_expr(rhs);
                let r = match (lt, rt) {
                    (Some(a), Some(b)) => {
                        if a == b || (is_numeric(a) && is_numeric(b)) {
                            Some(ClassicalType::Bool)
                        } else {
                            self.error(string_of("comparison operands have incompatible types"), *span);
                            None
                        }
                    },
                    _ => None,
                };
                proof {
                    assert(self.state().diags =~= st.diags + expr_check(sc, f, *expr).1);
                }
                r
            },
        }
    }

    fn check_ident(&mut self, expr: &Expr) -> (r: Option<ClassicalType>)
        requires
            *expr is Ident,
        ensures
            r == expr_check(old(self).state().scopes, old(self).state().functions, *expr).0,
            final(self).state() == with_diags(
                old(self).state(),
                expr_check(old(self).state().scopes, old(self).state().functions, *expr).1,
            ),
    {
        let ghost st = self.state();
        let ghost sc = st.scopes;
        let ghost f = st.functions;
        match expr {
            Expr::Ident(name, span) => match self.symbols.get(name.as_str()) {
                Some(sym) => match sym.kind {
                    SymbolKind::Classical(t) => Some(t),
                    SymbolKind::Const(t) => Some(t),
                    SymbolKind::Bit => Some(ClassicalType::Int),
                    SymbolKind::GateParam => Some(ClassicalType::Float),
                    _ => {
                        let m = text3("`", name.as_str(), "` cannot be used as a classical expression");
                        self.error(m, *span);
                        None
                    },
                },
                None => {
                    self.error(text3("`", name.as_str(), "` is not declared"), *span);
                    None
                },
            },
            _ => None,
        }
    }

    
    fn check_index(&mut self, expr: &Expr) -> (r: Option<ClassicalType>)
        requires
            *expr is Index,
        ensures
            r == expr_check(old(self).state().scopes, old(self).state().functions, *expr).0,
            final(self).state() == with_diags(
                old(self).state(),
                expr_check(old(self).state().scopes, old(self).state().functions, *expr).1,
            ),
    {
        let ghost st = self.state();
        let ghost sc = st.scopes;
        let ghost f = st.functions;
        match expr {
            Expr::Index { name, index, span } => match self.symbols.get(name.as_str()) {
                None => {
                    self.error(text3("`", name.as_str(), "` is not declared"), *span);
                    None
                },
                Some(sym) => {
                    if sym.kind == SymbolKind::Bit {
                        match sym.size {
                            Some(size) => {
                                if *index < size {
                                    Some(ClassicalType::Int)
                                } else {
                                    let mut m = string_of("index ");
                                    push_u64(&mut m, *index);
                                    m.append(" is out of bounds for `");
                                    m.append(name.as_str());
                                    m.append("` (size ");
                                    push_u64(&mut m, size);
                                    m.append(")");
                                    self.error(m, *span);
                                    None
                                }
                            },
                            None => {
                                self.error(text3("cannot index scalar bit `", name.as_str(), "`"), *span);
                                None
                            },
                        }
                    } else {
                        let m = text3("`", name.as_str(), "` is not an indexable classical register");
                        self.error(m, *span);
                        None
                    }
                },
            },
            _ => None,
        }
    }

    #[verifier::loop_isolation(false)]
    fn check_call(&mut self, expr: &Expr) -> (r: Option<ClassicalType>)
        requires
            *expr is Call,
        ensures
            r == expr_check(old(self).state().scopes, old(self).state().functions, *expr).0,
            final(self).state() == with_diags(
                old(self).state(),
                expr_check(old(self).state().scopes, old(self).state().functions, *expr).1,
            ),
        decreases expr, 0nat,
    {
        let ghost st = self.state();
        let ghost sc = st.scopes;
        let ghost f = st.functions;
        match expr {
            Expr::Call { name, args, span } => {
                proof {
                    assert(decreases_to!(*expr => *args));
                    assert(decreases_to!(args => args@));
                }
                let found = match self.functions.get(name.as_str()) {
                    Some(sig) => Some((copy_types(&sig.params), sig.return_type, sig.decl_span)),
                    None => None,
                };
                match found {
                    Some((params, ret, decl)) => {
                        assert(f.contains_key(name@) && f[name@] == (params@, ret, decl));
                        if args.len() != params.len() {
                            let mut m = text3("function `", name.as_str(), "` expects ");
                            push_usize(&mut m, params.len());
                            m.append(" argument(s), got ");
                            push_usize(&mut m, args.len());
                            self.error_with_note(m, *span, string_of("function defined here"), decl);
                        }
                        let ghost st1 = self.state();
                        let mut i: usize = 0;
                        while i < args.len()
                            invariant
                                i <= args@.len(),
                                self.state() == with_diags(
                                    st1,
                                    args_check(sc, f, name@, params@, args@.take(i as int)),
                                ),
                                st1.scopes == sc,
                                st1.functions == f,
                            decreases args@.len() - i,
                        {
                            proof {
                                assert(decreases_to!(args@ => args@[i as int]));
                                assert(args@.take(i + 1).drop_last() =~= args@.take(i as int));
                            }
                            let ghost before = self.state();
                            let t = self.check_expr(&args[i]);
                            match t {
                                Some(a) => {
                                    if i < params.len() && !assignable(params[i], a) {
                                        let mut m = string_of("argument ");
                                        push_usize(&mut m, i + 1);
                                        m.append(" to `");
                                        m.append(name.as_str());
                                        m.append("` must be ");
                                        m.append(classical_type_name(params[i]));
                                        m.append(", found ");
                                        m.append(classical_type_name(a));
                                        self.error(m, *args[i].span());
                                    }
                                },
                                None => {},
                            }
                            proof {
                                assert(self.state().diags =~= st1.diags + args_check(
                                    sc,
                                    f,
                                    name@,
                                    params@,
                                    args@.take(i + 1),
                                ));
                            }
                            i += 1;
                        }
                        assert(args@.take(args@.len() as int) =~= args@);
                        proof {
                            assert(self.state().diags =~= st.diags + expr_check(sc, f, *expr).1);
                        }
                        Some(ret)
                    },
                    None => {
                        self.error(text3("function `", name.as_str(), "` is not defined"), *span);
                        let ghost st1 = self.state();
                        let mut i: usize = 0;
                        while i < args.len()
                            invariant
                                i <= args@.len(),
                                self.state() == with_diags(st1, args_diags(sc, f, args@.take(i as int))),
                                st1.scopes == sc,
                                st1.functions == f,
                            decreases args@.len() - i,
                        {
                            proof {
                                assert(decreases_to!(args@ => args@[i as int]));
                                assert(args@.take(i + 1).drop_last() =~= args@.take(i as int));
                            }
                            let _ = self.check_expr(&args[i]);
                            proof {
                                assert(self.state().diags =~= st1.diags + args_diags(
                                    sc,
                                    f,
                                    args@.take(i + 1),
                                ));
                            }
                            i += 1;
                        }
                        assert(args@.take(args@.len() as int) =~= args@);
                        proof {
                            assert(self.state().diags =~= st.diags + expr_check(sc, f, *expr).1);
                        }
                        None
                    },
                }
            },
            _ => None,
        }
    }

}

fn kind_name(k: SymbolKind) -> (r: String)
    ensures
        r@ == kind_text(k),
{
    match k {
        SymbolKind::Qubit => string_of("qubit"),
        SymbolKind::Bit => string_of("bit"),
        SymbolKind::Classical(t) => string_of(t.text()),
        SymbolKind::Const(t) => text2("const ", t.text()),
        SymbolKind::GateParam => string_of("gate parameter"),
        SymbolKind::GateQubit => string_of("gate qubit"),
    }
}

fn expected_name(k: SymbolKind) -> (r: &'static str)
    ensures
        r@ == expected_text(k),
{
    match k {
        SymbolKind::Qubit => "qubit",
        SymbolKind::Bit => "bit",
        _ => "quantum operand",
    }
}

fn size_note(name: &str, n: u64) -> (r: String)
    ensures
        r@ == "`"@ + name@ + "` declared with size "@ + dec(n as int) + " here"@,
{
    let mut m = text3("`", name, "` declared with size ");
    push_u64(&mut m, n);
    m.append(" here");
    m
}

impl SemaContext {
    fn check_operand(&mut self, op: &GateOperand, expected_kind: Option<SymbolKind>)
        ensures
            final(self).state() == with_diags(
                old(self).state(),
                operand_diags(old(self).state().scopes, *op, expected_kind),
            ),
    {
        let ghost st = self.state();
        let name = op.name.as_str();
        let sym = match self.symbols.get(name) {
            Some(sym) => sym,
            None => {
                self.error(text3("`", name, "` is not declared"), op.span);
                return;
            },
        };
        if let Some(expected) = expected_kind {
            let ok = (expected == SymbolKind::Qubit && (sym.kind == SymbolKind::Qubit || sym.kind
                == SymbolKind::GateQubit)) || (expected == SymbolKind::Bit && sym.kind
                == SymbolKind::Bit);
            if !ok {
                let found = kind_name(sym.kind);
                let mut m = text2("expected ", expected_name(expected));
                m.append(", but `");
                m.append(name);
                m.append("` is a ");
                m.append(found.as_str());
                let mut n = text3("`", name, "` declared as ");
                n.append(found.as_str());
                n.append(" here");
                self.error_with_note(m, op.span, n, sym.decl_span);
            }
        }
        let ghost st1 = self.state();
        if sym.kind == SymbolKind::GateQubit && (op.index.is_some() || op.slice.is_some()) {
            let m = text3("cannot index gate qubit `", name, "` — gate qubits are single wires");
            self.error(m, op.span);
            assert(self.state().diags =~= st.diags + operand_diags(st.scopes, *op, expected_kind));
            return;
        }
        if let Some(idx) = op.index {
            match sym.size {
                Some(size) => {
                    if idx >= size {
                        let mut m = string_of("index ");
                        push_u64(&mut m, idx);
                        m.append(" is out of bounds for `");
                        m.append(name);
                        m.append("` (size ");
                        push_u64(&mut m, size);
                        m.append(")");
                        self.error_with_note(m, op.span, size_note(name, size), sym.decl_span);
                    }
                },
                None => {
                    let m = text3("cannot index `", name, "` — it is a single qubit/bit, not a register");
                    let n = text3("`", name, "` declared without a size here");
                    self.error_with_note(m, op.span, n, sym.decl_span);
                },
            }
        }
        if let Some((start, end)) = op.slice {
            match sym.size {
                Some(size) => {
                    if !(start <= end && end < size) {
                        let mut m = string_of("slice ");
                        push_u64(&mut m, start);
                        m.append(":");
                        push_u64(&mut m, end);
                        m.append(" is out of bounds for `");
                        m.append(name);
                        m.append("` (size ");
                        push_u64(&mut m, size);
                        m.append(")");
                        self.error_with_note(m, op.span, size_note(name, size), sym.decl_span);
                    }
                },
                None => {
                    self.error(text3("cannot slice scalar `", name, "`"), op.span);
                },
            }
        }
        assert(self.state().diags =~= st.diags + operand_diags(st.scopes, *op, expected_kind));
    }

    fn operand_width(&self, op: &GateOperand) -> (r: Option<u64>)
        ensures
            r == operand_width_spec(self.state().scopes, *op),
    {
        let symbol = match self.symbols.get(op.name.as_str()) {
            Some(s) => s,
            None => {
                return None;
            },
        };
        if let Some((start, end)) = op.slice {
            if end < start || end - start == u64::MAX {
                None
            } else {
                Some(end - start + 1)
            }
        } else if op.index.is_some() {
            Some(1)
        } else {
            match symbol.size {
                Some(n) => Some(n),
                None => Some(1),
            }
        }
    }

    fn lookup_measured(&self, name: &str, index: Option<u64>) -> (r: Option<Span>)
        ensures
            r == lookup_measured_spec(self.state().measured, name@, index),
    {
        if let Some(span) = self.measured.get(name, index) {
            return Some(span);
        }
        if index.is_some() {
            if let Some(span) = self.measured.get(name, None) {
                return Some(span);
            }
        }
        None
    }

    fn check_use_after_measure(&mut self, op: &GateOperand, use_span: &Span)
        ensures
            final(self).state() == with_diags(
                old(self).state(),
                use_after_measure_diags(old(self).state().measured, *op, *use_span),
            ),
    {
        let ghost m = self.state().measured;
        let name = op.name.as_str();
        if let Some((start, end)) = op.slice {
            if start <= end {
                let mut index = start;
                while index < end
                    invariant
                        start <= index <= end,
                        op.slice == Some((start, end)),
                        name@ == op.name@,
                        self.state() == old(self).state(),
                        m == self.state().measured,
                        first_measured(m, name@, start as int, end as int) == first_measured(
                            m,
                            name@,
                            index as int,
                            end as int,
                        ),
                    decreases end - index,
                {
                    if let Some(measure_span) = self.lookup_measured(name, Some(index)) {
                        let mut msg = text3("use of qubit `", name, "[");
                        push_u64(&mut msg, index);
                        msg.append("]` after measurement");
                        self.error_with_note(msg, *use_span, string_of("qubit was measured here"), measure_span);
                        proof {
                            assert(first_measured(m, name@, index as int, end as int) == Some(index));
                            assert(self.state().diags =~= old(self).state().diags
                                + use_after_measure_diags(m, *op, *use_span));
                        }
                        return;
                    }
                    index += 1;
                }
                if let Some(measure_span) = self.lookup_measured(name, Some(end)) {
                    let mut msg = text3("use of qubit `", name, "[");
                    push_u64(&mut msg, end);
                    msg.append("]` after measurement");
                    self.error_with_note(msg, *use_span, string_of("qubit was measured here"), measure_span);
                    proof {
                        assert(first_measured(m, name@, end as int, end as int) == Some(end));
                        assert(self.state().diags =~= old(self).state().diags
                            + use_after_measure_diags(m, *op, *use_span));
                    }
                } else {
                    proof {
                        assert(first_measured(m, name@, end + 1, end as int) is None);
                        assert(first_measured(m, name@, end as int, end as int) is None);
                        assert(self.state().diags =~= old(self).state().diags
                            + use_after_measure_diags(m, *op, *use_span));
                    }
                }
            } else {
                proof {
                    assert(first_measured(m, name@, start as int, end as int) is None);
                    assert(self.state().diags =~= old(self).state().diags
                        + use_after_measure_diags(m, *op, *use_span));
                }
            }
            return;
        }
        if let Some(measure_span) = self.lookup_measured(name, op.index) {
            let mut msg = string_of("use of qubit `");
            crate::codegen::emit_operand(&mut msg, op);
            msg.append("` after measurement — qubit state has collapsed and cannot be used in a gate without an explicit `reset`");
            self.error_with_note(msg, *use_span, string_of("qubit was measured here"), measure_span);
        }
    }

    fn mark_measured(&mut self, qubit: &GateOperand, span: &Span)
        ensures
            final(self).state() == with_measured(
                old(self).state(),
                mark_spec(old(self).state().measured, old(self).state().scopes, *qubit, *span),
            ),
    {
        let ghost m0 = self.measured@;
        let name = qubit.name.as_str();
        if let Some((start, end)) = qubit.slice {
            if start <= end {
                let mut index = start;
                assert(m0.union_prefer_right(index_range(name@, start as int, start as int, *span)) =~= m0);
                while index < end
                    invariant
                        start <= index <= end,
                        self.state() == with_measured(old(self).state(), self.measured@),
                        self.measured@ == m0.union_prefer_right(
                            index_range(name@, start as int, index as int, *span),
                        ),
                    decreases end - index,
                {
                    self.measured.insert(name, Some(index), *span);
                    assert(self.measured@ =~= m0.union_prefer_right(
                        index_range(name@, start as int, index + 1, *span),
                    ));
                    index += 1;
                }
                self.measured.insert(name, Some(end), *span);
                assert(self.measured@ =~= m0.union_prefer_right(
                    index_range(name@, start as int, end + 1, *span),
                ));
            } else {
                assert(m0.union_prefer_right(index_range(name@, start as int, end + 1, *span)) =~= m0);
            }
            return;
        }
        self.measured.insert(name, qubit.index, *span);
        let ghost m1 = self.measured@;
        if qubit.index.is_none() {
            if let Some(sym) = self.symbols.get(name) {
                if let Some(size) = sym.size {
                    let mut i: u64 = 0;
                    assert(m1.union_prefer_right(index_range(name@, 0, 0, *span)) =~= m1);
                    while i < size
                        invariant
                            i <= size,
                            self.state() == with_measured(old(self).state(), self.measured@),
                            self.measured@ == m1.union_prefer_right(
                                index_range(name@, 0, i as int, *span),
                            ),
                        decreases size - i,
                    {
                        self.measured.insert(name, Some(i), *span);
                        assert(self.measured@ =~= m1.union_prefer_right(
                            index_range(name@, 0, i + 1, *span),
                        ));
                        i += 1;
                    }
                }
            }
        }
    }

    fn clear_measured(&mut self, target: &GateOperand)
        ensures
            final(self).state() == with_measured(
                old(self).state(),
                clear_spec(old(self).state().measured, *target),
            ),
    {
        let ghost m0 = self.measured@;
        let name = target.name.as_str();
        if let Some((start, end)) = target.slice {
            if start <= end {
                let mut index = start;
                assert(m0.remove_keys(index_range(name@, start as int, start as int, target.span).dom()) =~= m0);
                while index < end
                    invariant
                        start <= index <= end,
                        self.state() == with_measured(old(self).state(), self.measured@),
                        self.measured@ == m0.remove_keys(
                            index_range(name@, start as int, index as int, target.span).dom(),
                        ),
                    decreases end - index,
                {
                    self.measured.remove(name, Some(index));
                    assert(self.measured@ =~= m0.remove_keys(
                        index_range(name@, start as int, index + 1, target.span).dom(),
                    ));
                    index += 1;
                }
                self.measured.remove(name, Some(end));
                assert(self.measured@ =~= m0.remove_keys(
                    index_range(name@, start as int, end + 1, target.span).dom(),
                ));
            } else {
                assert(m0.remove_keys(index_range(name@, start as int, end + 1, target.span).dom()) =~= m0);
            }
            assert(self.measured@ =~= clear_spec(m0, *target));
            return;
        }
        self.measured.remove(name, target.index);
        if target.index.is_none() {
            self.measured.remove_register(name);
        }
        assert(self.measured@ =~= clear_spec(m0, *target));
    }
}

impl SemaContext {
    fn require_type(&mut self, expr: &Expr, expected: ClassicalType, context: &str)
        ensures
            final(self).state() == with_diags(
                old(self).state(),
                require_type_diags(
                    old(self).state().scopes,
                    old(self).state().functions,
                    *expr,
                    expected,
                    context@,
                ),
            ),
    {
        let ghost st = self.state();
        if let Some(actual) = self.check_expr(expr) {
            if !assignable(expected, actual) {
                let mut m = text2(context, " must have type ");
                m.append(classical_type_name(expected));
                m.append(", found ");
                m.append(classical_type_name(actual));
                self.error(m, *expr.span());
            }
        }
        assert(self.state().diags =~= st.diags + require_type_diags(
            st.scopes,
            st.functions,
            *expr,
            expected,
            context@,
        ));
    }

    fn check_numeric(&mut self, expr: &Expr, message: &str)
        ensures
            final(self).state() == with_diags(
                old(self).state(),
                numeric_diags(old(self).state().scopes, old(self).state().functions, *expr, message@),
            ),
    {
        let ghost st = self.state();
        if let Some(ty) = self.check_expr(expr) {
            if !is_numeric(ty) {
                self.error(string_of(message), *expr.span());
            }
        }
        assert(self.state().diags =~= st.diags + numeric_diags(
            st.scopes,
            st.functions,
            *expr,
            message@,
        ));
    }

    fn check_modifiers(&mut self, modifiers: &Vec<GateModifier>)
        ensures
            final(self).state() == with_diags(
                old(self).state(),
                modifiers_diags(old(self).state().scopes, old(self).state().functions, modifiers@),
            ),
    {
        let ghost st = self.state();
        let mut i: usize = 0;
        while i < modifiers.len()
            invariant
                i <= modifiers@.len(),
                self.state() == with_diags(
                    st,
                    modifiers_diags(st.scopes, st.functions, modifiers@.take(i as int)),
                ),
            decreases modifiers@.len() - i,
        {
            assert(modifiers@.take(i + 1).drop_last() =~= modifiers@.take(i as int));
            let ghost before = self.state();
            match &modifiers[i] {
                GateModifier::Ctrl(Some(arg), span) | GateModifier::NegCtrl(Some(arg), span) => {
                    self.require_type(arg, ClassicalType::Int, "control modifier argument");
                    let positive = match eval_int(arg) {
                        Some(v) => v > 0,
                        None => false,
                    };
                    if !positive {
                        self.error(
                            string_of("control count must be a positive compile-time integer"),
                            *span,
                        );
                    }
                },
                GateModifier::Pow(expr, _) => {
                    self.check_numeric(expr, "power modifier argument must be numeric");
                },
                _ => {},
            }
            assert(self.state().diags =~= st.diags + modifiers_diags(
                st.scopes,
                st.functions,
                modifiers@.take(i + 1),
            ));
            i += 1;
        }
        assert(modifiers@.take(modifiers@.len() as int) =~= modifiers@);
    }

    fn check_params(&mut self, params: &Vec<Expr>)
        ensures
            final(self).state() == with_diags(
                old(self).state(),
                params_diags(old(self).state().scopes, old(self).state().functions, params@),
            ),
    {
        let ghost st = self.state();
        let mut i: usize = 0;
        while i < params.len()
            invariant
                i <= params@.len(),
                self.state() == with_diags(
                    st,
                    params_diags(st.scopes, st.functions, params@.take(i as int)),
                ),
            decreases params@.len() - i,
        {
            assert(params@.take(i + 1).drop_last() =~= params@.take(i as int));
            self.check_numeric(&params[i], "gate parameters must be numeric");
            assert(self.state().diags =~= st.diags + params_diags(
                st.scopes,
                st.functions,
                params@.take(i + 1),
            ));
            i += 1;
        }
        assert(params@.take(params@.len() as int) =~= params@);
    }

    fn check_operands(&mut self, ops: &Vec<GateOperand>, use_span: &Span)
        ensures
            final(self).state() == with_diags(
                old(self).state(),
                operands_diags(old(self).state().scopes, old(self).state().measured, ops@, *use_span),
            ),
    {
        let ghost st = self.state();
        let mut i: usize = 0;
        while i < ops.len()
            invariant
                i <= ops@.len(),
                self.state() == with_diags(
                    st,
                    operands_diags(st.scopes, st.measured, ops@.take(i as int), *use_span),
                ),
            decreases ops@.len() - i,
        {
            assert(ops@.take(i + 1).drop_last() =~= ops@.take(i as int));
            self.check_operand(&ops[i], Some(SymbolKind::Qubit));
            self.check_use_after_measure(&ops[i], use_span);
            assert(self.state().diags =~= st.diags + operands_diags(
                st.scopes,
                st.measured,
                ops@.take(i + 1),
                *use_span,
            ));
            i += 1;
        }
        assert(ops@.take(ops@.len() as int) =~= ops@);
    }

    fn wide_width_of(&self, op: &GateOperand) -> (r: Option<u64>)
        ensures
            r == wide_width(self.state().scopes, *op),
    {
        match self.operand_width(op) {
            Some(w) => if w > 1 {
                Some(w)
            } else {
                None
            },
            None => None,
        }
    }

    fn broadcast_widths_differ(&self, ops: &Vec<GateOperand>) -> (r: bool)
        ensures
            r == broadcast_mismatch(self.state().scopes, ops@),
    {
        let ghost sc = self.state().scopes;
        let mut first: Option<u64> = None;
        let mut first_at: usize = 0;
        let mut i: usize = 0;
        while i < ops.len()
            invariant
                i <= ops@.len(),
                sc == self.state().scopes,
                first is None ==> forall|k: int| 0 <= k < i ==> (#[trigger] wide_width(sc, ops@[k])) is None,
                first is Some ==> first_at < i && wide_width(sc, ops@[first_at as int]) == first,
                first is Some ==> forall|k: int|
                    0 <= k < i ==> (#[trigger] wide_width(sc, ops@[k])) is None || wide_width(
                        sc,
                        ops@[k],
                    ) == first,
            decreases ops@.len() - i,
        {
            let w = self.wide_width_of(&ops[i]);
            match w {
                Some(x) => match first {
                    None => {
                        first = Some(x);
                        first_at = i;
                    },
                    Some(y) => {
                        if x != y {
                            assert(wide_width(sc, ops@[first_at as int]) is Some);
                            assert(wide_width(sc, ops@[i as int]) is Some);
                            return true;
                        }
                    },
                },
                None => {},
            }
            i += 1;
        }
        proof {
            if broadcast_mismatch(sc, ops@) {
                let (a, b) = choose|a: int, b: int|
                    0 <= a < ops@.len() && 0 <= b < ops@.len() && (#[trigger] wide_width(
                        sc,
                        ops@[a],
                    )) is Some && (#[trigger] wide_width(sc, ops@[b])) is Some && wide_width(
                        sc,
                        ops@[a],
                    ) != wide_width(sc, ops@[b]);
                assert(wide_width(sc, ops@[a]) is Some);
            }
        }
        false
    }

    fn arity_error(&mut self, message: String, span: Span, name: &str, decl: Option<Span>)
        ensures
            final(self).state() == with_diags(
                old(self).state(),
                seq![maybe_note(message@, span, name@, decl)],
            ),
    {
        match decl {
            Some(d) => {
                self.error_with_note(message, span, text3("`", name, "` defined here"), d);
            },
            None => {
                self.error(message, span);
            },
        }
    }

    fn check_gate_arity(
        &mut self,
        name: &str,
        modifiers: &Vec<GateModifier>,
        n_params: usize,
        n_args: usize,
        span: &Span,
    )
        ensures
            final(self).state() == with_diags(
                old(self).state(),
                arity_diags(
                    old(self).state().gates,
                    name@,
                    modifiers@,
                    n_params as int,
                    n_args as int,
                    *span,
                ),
            ),
    {
        let ghost st = self.state();
            let sig: Option<(usize, usize, Option<Span>)> = match self.gates.get(name) {
                Some(g) => Some((g.param_count, g.qubit_count, Some(g.decl_span))),
                None => match standard_gate_signature(name) {
                    Some((p, q)) => Some((p, q, None)),
                    None => None,
                },
            };
            assert(sig == gate_signature(st.gates, name@));
            match sig {
                Some((param_count, qubit_count, decl)) => {
                    if n_params != param_count {
                        let mut m = text3("gate `", name, "` expects ");
                        push_usize(&mut m, param_count);
                        m.append(" parameter(s), got ");
                        push_usize(&mut m, n_params);
                        self.arity_error(m, *span, name, decl);
                    }
                    let controls: usize = match modifier_control_count(modifiers) {
                        Some(c) => c,
                        None => 0,
                    };
                    let want: usize = if qubit_count > usize::MAX - controls {
                        usize::MAX
                    } else {
                        qubit_count + controls
                    };
                    assert(want == expected_qubits(qubit_count, modifiers@));
                    if n_args != want {
                        let mut m = text3("gate `", name, "` expects ");
                        push_usize(&mut m, want);
                        m.append(" qubit(s) after modifiers, got ");
                        push_usize(&mut m, n_args);
                        self.arity_error(m, *span, name, decl);
                    }
                },
                None => {
                    self.error(text3("gate `", name, "` is not defined"), *span);
                },
            }
        assert(self.state().diags =~= st.diags + arity_diags(
            st.gates,
            name@,
            modifiers@,
            n_params as int,
            n_args as int,
            *span,
        ));
    }

    fn analyze_gate_call(&mut self, stmt: &Stmt)
        requires
            old(self).state().scopes.len() > 0,
            *stmt is GateCall,
        ensures
            final(self).state() == stmt_step(old(self).state(), *stmt),
    {
        let ghost st = self.state();
        if let Stmt::GateCall { name, modifiers, params, args, span } = stmt {
            self.check_gate_arity(name.as_str(), modifiers, params.len(), args.len(), span);
            self.check_modifiers(modifiers);
            self.check_params(params);
            self.check_operands(args, span);
            if self.broadcast_widths_differ(args) {
                self.error(
                    string_of("gate register operands must have the same length for broadcasting"),
                    *span,
                );
            }
            assert(self.state().diags =~= stmt_step(st, *stmt).diags);
        }
    }

    fn analyze_classical_decl(&mut self, stmt: &Stmt)
        requires
            old(self).state().scopes.len() > 0,
            *stmt is ClassicalDecl,
        ensures
            final(self).state() == stmt_step(old(self).state(), *stmt),
            final(self).state().scopes.len() == old(self).state().scopes.len(),
    {
        let ghost st = self.state();
        if let Stmt::ClassicalDecl { qualifier, ty, name, init, span } = stmt {
            let is_const = match qualifier {
                Some(ClassicalQualifier::Const) => true,
                _ => false,
            };
            let is_input = match qualifier {
                Some(ClassicalQualifier::Input) => true,
                _ => false,
            };
            let kind = if is_const {
                SymbolKind::Const(*ty)
            } else {
                SymbolKind::Classical(*ty)
            };
            self.declare(name.as_str(), kind, None, span);
            let ghost st1 = self.state();
            if is_const && init.is_none() {
                self.error(text3("const `", name.as_str(), "` requires an initializer"), *span);
            }
            if is_input && init.is_some() {
                self.error(text3("input `", name.as_str(), "` cannot have an initializer"), *span);
            }
            if let Some(expr) = init {
                if let Some(actual) = self.check_expr(expr) {
                    if !assignable(*ty, actual) {
                        let mut m = text2("cannot initialize ", classical_type_name(*ty));
                        m.append(" `");
                        m.append(name.as_str());
                        m.append("` with ");
                        m.append(classical_type_name(actual));
                        m.append(" expression");
                        self.error(m, *expr.span());
                    }
                }
            }
            assert(self.state().diags =~= stmt_step(st, *stmt).diags);
        }
    }

    fn analyze_assignment(&mut self, stmt: &Stmt)
        requires
            *stmt is Assignment,
        ensures
            final(self).state() == stmt_step(old(self).state(), *stmt),
    {
        let ghost st = self.state();
        if let Stmt::Assignment { name, op, value, span } = stmt {
            let target = self.symbols.get(name.as_str());
            let actual = self.check_expr(value);
            match target {
                None => {
                    self.error(text3("`", name.as_str(), "` is not declared"), *span);
                },
                Some(sym) => match sym.kind {
                    SymbolKind::Classical(expected) => {
                        if let Some(a) = actual {
                            if !assignable(expected, a) {
                                let mut m = text3("cannot assign ", classical_type_name(a), " expression to ");
                                m.append(classical_type_name(expected));
                                m.append(" `");
                                m.append(name.as_str());
                                m.append("`");
                                self.error(m, *value.span());
                            }
                            let compound = match op {
                                AssignOp::Assign => false,
                                _ => true,
                            };
                            if compound && (!is_numeric(expected) || !is_numeric(a)) {
                                self.error(string_of("compound assignment requires numeric operands"), *span);
                            }
                        }
                    },
                    SymbolKind::Const(_) => {
                        self.error(text3("cannot assign to const `", name.as_str(), "`"), *span);
                    },
                    _ => {
                        self.error(
                            text3("`", name.as_str(), "` is not an assignable classical variable"),
                            *span,
                        );
                    },
                },
            }
            assert(self.state().diags =~= stmt_step(st, *stmt).diags);
        }
    }

    fn analyze_function_def(&mut self, stmt: &Stmt)
        requires
            *stmt is FunctionDef,
        ensures
            final(self).state() == stmt_step(old(self).state(), *stmt),
    {
        let ghost st = self.state();
        if let Stmt::FunctionDef { name, params, return_type, body, span } = stmt {
            let previous = match self.functions.get(name.as_str()) {
                Some(prev) => Some(prev.decl_span),
                None => None,
            };
            match previous {
                Some(decl) => {
                    self.error_with_note(
                        text3("function `", name.as_str(), "` is already defined"),
                        *span,
                        string_of("first defined here"),
                        decl,
                    );
                },
                None => {
                    let mut types: Vec<ClassicalType> = Vec::new();
                    let mut i: usize = 0;
                    while i < params.len()
                        invariant
                            i <= params@.len(),
                            types@ =~= params@.take(i as int).map_values(
                                |p: (ClassicalType, String)| p.0,
                            ),
                        decreases params@.len() - i,
                    {
                        types.push(params[i].0);
                        i += 1;
                    }
                    assert(params@.take(params@.len() as int) =~= params@);
                    let sig = FunctionSig { params: types, return_type: *return_type, decl_span: *span };
                    let ghost old_fns = self.functions@;
                    let ghost sv = sig_view(sig);
                    self.functions.insert(name.clone(), sig);
                    assert(functions_view(self.functions@) =~= functions_view(old_fns).insert(name@, sv));
                },
            }
            let ghost st1 = self.state();
            self.symbols.push_scope();
            let ghost base = self.symbols@;
            let mut i: usize = 0;
            assert(base.last() =~= bind_params(params@.take(0), *span));
            while i < params.len()
                invariant
                    i <= params@.len(),
                    base.len() > 0,
                    self.symbols@ == base.update(base.len() - 1, bind_params(params@.take(i as int), *span)),
                    self.state() == (SemaState { scopes: self.symbols@, ..st1 }),
                decreases params@.len() - i,
            {
                assert(params@.take(i + 1).drop_last() =~= params@.take(i as int));
                self.symbols.insert(
                    params[i].1.clone(),
                    Symbol { kind: SymbolKind::Classical(params[i].0), size: None, decl_span: *span },
                );
                assert(self.symbols@ =~= base.update(base.len() - 1, bind_params(params@.take(i + 1), *span)));
                i += 1;
            }
            assert(params@.take(params@.len() as int) =~= params@);
            assert(self.symbols@ =~= st1.scopes.push(bind_params(params@, *span)));
            if let Some(actual) = self.check_expr(body) {
                if !assignable(*return_type, actual) {
                    let mut m = text3("function `", name.as_str(), "` returns ");
                    m.append(classical_type_name(*return_type));
                    m.append(", but its body has type ");
                    m.append(classical_type_name(actual));
                    self.error(m, *body.span());
                }
            }
            self.symbols.pop_scope();
            assert(self.symbols@ =~= st1.scopes);
            assert(self.state().diags =~= stmt_step(st, *stmt).diags);
        }
    }

    #[verifier::spinoff_prover]
    #[verifier::rlimit(40)]
    fn analyze_measure(&mut self, stmt: &Stmt)
        requires
            *stmt is Measure,
        ensures
            final(self).state() == stmt_step(old(self).state(), *stmt),
    {
        let ghost st = self.state();
        if let Stmt::Measure { qubit, target, span } = stmt {
            self.check_operand(qubit, Some(SymbolKind::Qubit));
            if let Some(t) = target {
                self.check_operand(t, Some(SymbolKind::Bit));
                let source_width = self.operand_width(qubit);
                let target_width = self.operand_width(t);
                if let (Some(a), Some(b)) = (source_width, target_width) {
                    if a != b {
                        let mut m = string_of("measurement source has ");
                        push_u64(&mut m, a);
                        m.append(" qubit(s), but target has ");
                        push_u64(&mut m, b);
                        m.append(" bit(s)");
                        self.error_with_note(m, *span, string_of("measurement target declared here"), t.span);
                    }
                }
            }
            if self.lookup_measured(qubit.name.as_str(), qubit.index).is_some() {
                let mut m = string_of("qubit `");
                crate::codegen::emit_operand(&mut m, qubit);
                m.append("` has already been measured");
                self.push_diag(Diagnostic::warning(m, *span));
            }
            assert(self.state().diags =~= stmt_step(st, *stmt).diags);
            self.mark_measured(qubit, span);
        }
    }

    fn analyze_simple(&mut self, stmt: &Stmt)
        requires
            old(self).state().scopes.len() > 0,
            *stmt is Include || *stmt is QubitDecl || *stmt is BitDecl || *stmt is Reset
                || *stmt is Barrier || *stmt is Delay,
        ensures
            final(self).state() == stmt_step(old(self).state(), *stmt),
            final(self).state().scopes.len() == old(self).state().scopes.len(),
    {
        let ghost st = self.state();
        match stmt {
            Stmt::QubitDecl { name, size, span } => {
                self.declare(name.as_str(), SymbolKind::Qubit, *size, span);
            },
            Stmt::BitDecl { name, size, span } => {
                self.declare(name.as_str(), SymbolKind::Bit, *size, span);
            },
            Stmt::Reset { target, .. } => {
                self.check_operand(target, Some(SymbolKind::Qubit));
                self.clear_measured(target);
            },
            Stmt::Barrier { targets, span } => {
                self.check_operands(targets, span);
            },
            Stmt::Delay { duration, targets, span } => {
                self.check_numeric(duration, "delay duration must be numeric");
                self.check_operands(targets, span);
                assert(self.state().diags =~= stmt_step(st, *stmt).diags);
            },
            _ => {},
        }
    }
}

impl SemaContext {
    fn analyze_stmts(&mut self, stmts: &Vec<Stmt>)
        requires
            old(self).state().scopes.len() > 0,
        ensures
            final(self).state() == stmts_step(old(self).state(), stmts@),
            final(self).state().scopes.len() == old(self).state().scopes.len(),
        decreases stmts, 0nat,
    {
        let ghost st = self.state();
        let mut i: usize = 0;
        while i < stmts.len()
            invariant
                i <= stmts@.len(),
                self.state() == stmts_step(st, stmts@.take(i as int)),
                self.state().scopes.len() == st.scopes.len(),
                st.scopes.len() > 0,
            decreases stmts@.len() - i,
        {
            proof {
                assert(decreases_to!(stmts => stmts@));
                assert(decreases_to!(stmts@ => stmts@[i as int]));
                assert(stmts@.take(i + 1).drop_last() =~= stmts@.take(i as int));
            }
            self.analyze_stmt(&stmts[i]);
            i += 1;
        }
        assert(stmts@.take(stmts@.len() as int) =~= stmts@);
    }

    fn analyze_stmt(&mut self, stmt: &Stmt)
        requires
            old(self).state().scopes.len() > 0,
        ensures
            final(self).state() == stmt_step(old(self).state(), *stmt),
            final(self).state().scopes.len() == old(self).state().scopes.len(),
        decreases stmt, 2nat,
    {
        match stmt {
            Stmt::ClassicalDecl { .. } => self.analyze_classical_decl(stmt),
            Stmt::Assignment { .. } => self.analyze_assignment(stmt),
            Stmt::GateCall { .. } => self.analyze_gate_call(stmt),
            Stmt::GateDef { .. } => self.analyze_gate_def(stmt),
            Stmt::FunctionDef { .. } => self.analyze_function_def(stmt),
            Stmt::Measure { .. } => self.analyze_measure(stmt),
            Stmt::If { .. } => self.analyze_if(stmt),
            Stmt::For { .. } => self.analyze_for(stmt),
            Stmt::While { .. } => self.analyze_while(stmt),
            _ => self.analyze_simple(stmt),
        }
    }

    fn analyze_gate_def(&mut self, stmt: &Stmt)
        requires
            old(self).state().scopes.len() > 0,
            *stmt is GateDef,
        ensures
            final(self).state() == stmt_step(old(self).state(), *stmt),
            final(self).state().scopes.len() == old(self).state().scopes.len(),
        decreases stmt, 1nat,
    {
        let ghost st = self.state();
        if let Stmt::GateDef { name, params, qparams, body, span } = stmt {
            proof {
                assert(decreases_to!(*stmt => *body));
            }
            if self.gates.contains_key(name.as_str()) {
                self.error(text3("gate `", name.as_str(), "` is already defined"), *span);
            }
            self.gates.insert(
                name.clone(),
                GateSig { param_count: params.len(), qubit_count: qparams.len(), decl_span: *span },
            );
            self.symbols.push_scope();
            let ghost base = self.symbols@;
            let ghost st0 = self.state();
            let param_sym = Symbol { kind: SymbolKind::GateParam, size: None, decl_span: *span };
            let qubit_sym = Symbol { kind: SymbolKind::GateQubit, size: None, decl_span: *span };
            let mut i: usize = 0;
            assert(base.last() =~= bind_all(Map::empty(), params@.take(0), param_sym));
            while i < params.len()
                invariant
                    i <= params@.len(),
                    base.len() > 0,
                    self.symbols@ == base.update(
                        base.len() - 1,
                        bind_all(Map::empty(), params@.take(i as int), param_sym),
                    ),
                    self.state() == (SemaState { scopes: self.symbols@, ..st0 }),
                decreases params@.len() - i,
            {
                assert(params@.take(i + 1).drop_last() =~= params@.take(i as int));
                self.symbols.insert(params[i].clone(), param_sym);
                assert(self.symbols@ =~= base.update(
                    base.len() - 1,
                    bind_all(Map::empty(), params@.take(i + 1), param_sym),
                ));
                i += 1;
            }
            assert(params@.take(params@.len() as int) =~= params@);
            let ghost pmap = bind_all(Map::empty(), params@, param_sym);
            let mut j: usize = 0;
            assert(bind_all(pmap, qparams@.take(0), qubit_sym) == pmap);
            while j < qparams.len()
                invariant
                    j <= qparams@.len(),
                    base.len() > 0,
                    self.symbols@ == base.update(
                        base.len() - 1,
                        bind_all(pmap, qparams@.take(j as int), qubit_sym),
                    ),
                    self.state() == (SemaState { scopes: self.symbols@, ..st0 }),
                decreases qparams@.len() - j,
            {
                assert(qparams@.take(j + 1).drop_last() =~= qparams@.take(j as int));
                self.symbols.insert(qparams[j].clone(), qubit_sym);
                assert(self.symbols@ =~= base.update(
                    base.len() - 1,
                    bind_all(pmap, qparams@.take(j + 1), qubit_sym),
                ));
                j += 1;
            }
            assert(qparams@.take(qparams@.len() as int) =~= qparams@);
            proof {
                let d = if st.gates.contains_key(name@) {
                    seq![err("gate `"@ + name@ + "` is already defined"@, *span)]
                } else {
                    seq![]
                };
                assert(self.state().diags =~= st.diags + d);
                assert(self.symbols@ =~= st.scopes.push(bind_all(pmap, qparams@, qubit_sym)));
            }
            self.analyze_stmts(body);
            self.symbols.pop_scope();
        }
    }

    fn analyze_if(&mut self, stmt: &Stmt)
        requires
            old(self).state().scopes.len() > 0,
            *stmt is If,
        ensures
            final(self).state() == stmt_step(old(self).state(), *stmt),
            final(self).state().scopes.len() == old(self).state().scopes.len(),
        decreases stmt, 1nat,
    {
        if let Stmt::If { condition, then_body, else_body, .. } = stmt {
            proof {
                assert(decreases_to!(*stmt => *then_body));
            }
            self.require_type(condition, ClassicalType::Bool, "if condition");
            let measured_before = self.measured.copy();
            self.symbols.push_scope();
            self.analyze_stmts(then_body);
            self.symbols.pop_scope();
            let measured_after_then = self.measured.copy();
            match else_body {
                Some(else_stmts) => {
                    proof {
                        assert(decreases_to!(*stmt => *else_body));
                        assert(decreases_to!(*else_body => *else_stmts));
                    }
                    self.measured = measured_before;
                    self.symbols.push_scope();
                    self.analyze_stmts(else_stmts);
                    self.symbols.pop_scope();
                    let measured_after_else = self.measured.copy();
                    self.measured = measured_after_then.merged_over(&measured_after_else);
                },
                None => {
                    self.measured = measured_before.merged_over(&measured_after_then);
                },
            }
        }
    }

    fn analyze_for(&mut self, stmt: &Stmt)
        requires
            old(self).state().scopes.len() > 0,
            *stmt is For,
        ensures
            final(self).state() == stmt_step(old(self).state(), *stmt),
            final(self).state().scopes.len() == old(self).state().scopes.len(),
        decreases stmt, 1nat,
    {
        let ghost st = self.state();
        if let Stmt::For { var_name, var_ty, range, body, span } = stmt {
            proof {
                assert(decreases_to!(*stmt => *body));
            }
            if *var_ty != ClassicalType::Int {
                self.error(string_of("for-loop variable must have type int"), *span);
            }
            self.require_type(&range.start, ClassicalType::Int, "for-loop range bound");
            self.require_type(&range.end, ClassicalType::Int, "for-loop range bound");
            if let Some(step) = &range.step {
                self.require_type(step, ClassicalType::Int, "for-loop range step");
            }
            let ghost st1 = self.state();
            let measured_before = self.measured.copy();
            self.symbols.push_scope();
            self.symbols.insert(
                var_name.clone(),
                Symbol { kind: SymbolKind::Classical(*var_ty), size: None, decl_span: *span },
            );
            proof {
                assert(st1.diags =~= st.diags + for_header_diags(st.scopes, st.functions, *var_ty, *range, *span));
                assert(self.symbols@ =~= st1.scopes.push(
                    Map::empty().insert(
                        var_name@,
                        Symbol { kind: SymbolKind::Classical(*var_ty), size: None, decl_span: *span },
                    ),
                ));
            }
            self.analyze_stmts(body);
            self.symbols.pop_scope();
            let measured_after_body = self.measured.copy();
            self.measured = measured_before.merged_over(&measured_after_body);
        }
    }

    fn analyze_while(&mut self, stmt: &Stmt)
        requires
            old(self).state().scopes.len() > 0,
            *stmt is While,
        ensures
            final(self).state() == stmt_step(old(self).state(), *stmt),
            final(self).state().scopes.len() == old(self).state().scopes.len(),
        decreases stmt, 1nat,
    {
        if let Stmt::While { condition, body, .. } = stmt {
            proof {
                assert(decreases_to!(*stmt => *body));
            }
            self.require_type(condition, ClassicalType::Bool, "while condition");
            let measured_before = self.measured.copy();
            self.symbols.push_scope();
            self.analyze_stmts(body);
            self.symbols.pop_scope();
            let measured_after_body = self.measured.copy();
            self.measured = measured_before.merged_over(&measured_after_body);
        }
    }
}

// ── Public entry point ──────────────────────────────────────

/// Check a program; the result is [`program_diags`] of it.
pub fn analyze(program: &Program) -> (r: Vec<Diagnostic>)
    ensures
        r@.map_values(|d: Diagnostic| d@) == program_diags(*program),
{
    let mut ctx = SemaContext::new();
    ctx.analyze_stmts(&program.statements);
    ctx.diags
}

// ── Laws ────────────────────────────────────────────────────

/// What every statement keeps: earlier diagnostics stay, and only the
/// innermost scope may change (the number of scopes is kept).
pub open spec fn frame(a: SemaState, b: SemaState) -> bool {
    &&& a.diags.is_prefix_of(b.diags)
    &&& b.scopes.len() == a.scopes.len()
    &&& a.scopes.len() > 0 ==> b.scopes.take(a.scopes.len() - 1) == a.scopes.take(
        a.scopes.len() - 1,
    )
}

proof fn lemma_frame_trans(a: SemaState, b: SemaState, c: SemaState)
    requires
        frame(a, b),
        frame(b, c),
    ensures
        frame(a, c),
{
    assert(a.diags.is_prefix_of(c.diags)) by {
        assert forall|i: int| 0 <= i < a.diags.len() implies c.diags[i] == a.diags[i] by {
            assert(b.diags[i] == a.diags[i]);
        }
    }
}

proof fn lemma_with_diags_frame(st: SemaState, d: Seq<DiagText>)
    ensures
        frame(st, with_diags(st, d)),
{
    assert((st.diags + d).take(st.diags.len() as int) =~= st.diags);
}

/// A block run in a fresh scope leaves the enclosing scopes as they were.
proof fn lemma_block_scopes(st: SemaState, body: Seq<Stmt>, inner: Map<Seq<char>, Symbol>)
    requires
        st.scopes.len() > 0,
    ensures
        pop_scope(stmts_step(SemaState { scopes: st.scopes.push(inner), ..st }, body)).scopes
            == st.scopes,
        st.diags.is_prefix_of(
            stmts_step(SemaState { scopes: st.scopes.push(inner), ..st }, body).diags,
        ),
    decreases body, 1nat,
{
    let st1 = SemaState { scopes: st.scopes.push(inner), ..st };
    lemma_stmts_frame(st1, body);
    let r = stmts_step(st1, body);
    assert(r.scopes.take(st.scopes.len() as int) == st1.scopes.take(st.scopes.len() as int));
    assert(st1.scopes.take(st.scopes.len() as int) =~= st.scopes);
    assert(r.scopes.drop_last() =~= r.scopes.take(st.scopes.len() as int));
}

proof fn lemma_prefix_trans(a: Seq<DiagText>, b: Seq<DiagText>, c: Seq<DiagText>)
    requires
        a.is_prefix_of(b),
        b.is_prefix_of(c),
    ensures
        a.is_prefix_of(c),
{
    assert forall|i: int| 0 <= i < a.len() implies c[i] == a[i] by {
        assert(b[i] == a[i]);
    }
}

proof fn lemma_declare_frame(st: SemaState, name: Seq<char>, kind: SymbolKind, size: Option<u64>, span: Span)
    requires
        st.scopes.len() > 0,
    ensures
        frame(st, declare_spec(st, name, kind, size, span)),
{
    let r = declare_spec(st, name, kind, size, span);
    let n = st.scopes.len() - 1;
    assert(r.scopes.take(n) =~= st.scopes.take(n));
    assert(r.diags.take(st.diags.len() as int) =~= st.diags);
}

proof fn lemma_gate_def_frame(st: SemaState, s: Stmt)
    requires
        st.scopes.len() > 0,
        s is GateDef,
    ensures
        frame(st, stmt_step(st, s)),
    decreases s, 0nat,
{
    let r = stmt_step(st, s);
    match s {
        Stmt::GateDef { params, qparams, body, span, name } => {
            {
                assert(decreases_to!(s => body));
                assert(decreases_to!(body => body@));
            }
            let scope = bind_all(
                bind_all(
                    Map::empty(),
                    params@,
                    Symbol { kind: SymbolKind::GateParam, size: None, decl_span: span },
                ),
                qparams@,
                Symbol { kind: SymbolKind::GateQubit, size: None, decl_span: span },
            );
            let d = if st.gates.contains_key(name@) {
                seq![err("gate `"@ + name@ + "` is already defined"@, span)]
            } else {
                seq![]
            };
            let st0 = SemaState {
                gates: st.gates.insert(
                    name@,
                    GateSig {
                        param_count: params@.len() as usize,
                        qubit_count: qparams@.len() as usize,
                        decl_span: span,
                    },
                ),
                diags: st.diags + d,
                ..st
            };
            lemma_block_scopes(st0, body@, scope);
            assert(st0.diags.take(st.diags.len() as int) =~= st.diags);
            lemma_prefix_trans(st.diags, st0.diags, r.diags);
                },
        _ => {},
    }
}

proof fn lemma_if_frame(st: SemaState, s: Stmt)
    requires
        st.scopes.len() > 0,
        s is If,
    ensures
        frame(st, stmt_step(st, s)),
    decreases s, 0nat,
{
    let r = stmt_step(st, s);
    match s {
        Stmt::If { condition, then_body, else_body, .. } => {
            {
                assert(decreases_to!(s => then_body));
                assert(decreases_to!(then_body => then_body@));
            }
            let st1 = with_diags(
                st,
                require_type_diags(st.scopes, st.functions, condition, ClassicalType::Bool, "if condition"@),
            );
            lemma_with_diags_frame(st, st1.diags.subrange(st.diags.len() as int, st1.diags.len() as int));
            assert(st1.diags.take(st.diags.len() as int) =~= st.diags);
            lemma_block_scopes(st1, then_body@, Map::empty());
            assert(push_scope(st1) == SemaState { scopes: st1.scopes.push(Map::empty()), ..st1 });
            let st2 = pop_scope(stmts_step(push_scope(st1), then_body@));
            assert(st1.diags.is_prefix_of(st2.diags));
            match else_body {
                Some(eb) => {
                    {
                        assert(decreases_to!(s => else_body));
                        assert(decreases_to!(else_body => eb));
                        assert(decreases_to!(eb => eb@));
                    }
                    let st2m = with_measured(st2, st1.measured);
                    lemma_block_scopes(st2m, eb@, Map::empty());
                    assert(push_scope(st2m) == SemaState { scopes: st2m.scopes.push(Map::empty()), ..st2m });
                    let st3 = pop_scope(stmts_step(push_scope(st2m), eb@));
                    assert(frame(st, st2)) by {
                        lemma_frame_trans(st, st1, st2);
                    }
                    lemma_frame_trans(st, st2, st3);
                },
                None => {
                    lemma_frame_trans(st, st1, st2);
                },
            }
                },
        _ => {},
    }
}

proof fn lemma_for_frame(st: SemaState, s: Stmt)
    requires
        st.scopes.len() > 0,
        s is For,
    ensures
        frame(st, stmt_step(st, s)),
    decreases s, 0nat,
{
    let r = stmt_step(st, s);
    match s {
        Stmt::For { var_name, var_ty, range, body, span } => {
            {
                assert(decreases_to!(s => body));
                assert(decreases_to!(body => body@));
            }
            let st1 = with_diags(st, for_header_diags(st.scopes, st.functions, var_ty, range, span));
            lemma_with_diags_frame(st, for_header_diags(st.scopes, st.functions, var_ty, range, span));
            let inner = Map::empty().insert(
                var_name@,
                Symbol { kind: SymbolKind::Classical(var_ty), size: None, decl_span: span },
            );
            lemma_block_scopes(st1, body@, inner);
            let st3 = pop_scope(stmts_step(SemaState { scopes: st1.scopes.push(inner), ..st1 }, body@));
            assert(frame(st1, st3));
            lemma_frame_trans(st, st1, st3);
                },
        _ => {},
    }
}

proof fn lemma_while_frame(st: SemaState, s: Stmt)
    requires
        st.scopes.len() > 0,
        s is While,
    ensures
        frame(st, stmt_step(st, s)),
    decreases s, 0nat,
{
    let r = stmt_step(st, s);
    match s {
        Stmt::While { condition, body, .. } => {
            {
                assert(decreases_to!(s => body));
                assert(decreases_to!(body => body@));
            }
            let d = require_type_diags(st.scopes, st.functions, condition, ClassicalType::Bool, "while condition"@);
            let st1 = with_diags(st, d);
            lemma_with_diags_frame(st, d);
            lemma_block_scopes(st1, body@, Map::empty());
            assert(push_scope(st1) == SemaState { scopes: st1.scopes.push(Map::empty()), ..st1 });
            let st3 = pop_scope(stmts_step(push_scope(st1), body@));
            assert(frame(st1, st3));
            lemma_frame_trans(st, st1, st3);
                },
        _ => {},
    }
}

proof fn lemma_stmt_frame(st: SemaState, s: Stmt)
    requires
        st.scopes.len() > 0,
    ensures
        frame(st, stmt_step(st, s)),
    decreases s, 1nat,
{
    let r = stmt_step(st, s);
    match s {
        Stmt::QubitDecl { name, size, span } => {
            lemma_declare_frame(st, name@, SymbolKind::Qubit, size, span);
        },
        Stmt::BitDecl { name, size, span } => {
            lemma_declare_frame(st, name@, SymbolKind::Bit, size, span);
        },
        Stmt::ClassicalDecl { qualifier, ty, name, init, span } => {
            let kind = if qualifier == Some(ClassicalQualifier::Const) {
                SymbolKind::Const(ty)
            } else {
                SymbolKind::Classical(ty)
            };
            let st1 = declare_spec(st, name@, kind, None, span);
            lemma_declare_frame(st, name@, kind, None, span);
            assert(r.scopes == st1.scopes);
            assert(r.diags.take(st1.diags.len() as int) =~= st1.diags);
            assert(frame(st1, r));
            lemma_frame_trans(st, st1, r);
        },
        Stmt::GateDef { .. } => lemma_gate_def_frame(st, s),
        Stmt::If { .. } => lemma_if_frame(st, s),
        Stmt::For { .. } => lemma_for_frame(st, s),
        Stmt::While { .. } => lemma_while_frame(st, s),
        _ => {
            let n = st.scopes.len() - 1;
            assert(r.scopes.take(n) =~= st.scopes.take(n));
            assert(r.diags.take(st.diags.len() as int) =~= st.diags);
        },
    }
}

proof fn lemma_stmts_frame(st: SemaState, ss: Seq<Stmt>)
    requires
        st.scopes.len() > 0,
    ensures
        frame(st, stmts_step(st, ss)),
    decreases ss, 0nat,
{
    if ss.len() == 0 {
        assert(st.diags.take(st.diags.len() as int) =~= st.diags);
    } else {
        {
            assert(decreases_to!(ss => ss.drop_last()));
            assert(decreases_to!(ss => ss[ss.len() - 1]));
        }
        let mid = stmts_step(st, ss.drop_last());
        lemma_stmts_frame(st, ss.drop_last());
        lemma_stmt_frame(mid, ss.last());
        lemma_frame_trans(st, mid, stmts_step(st, ss));
    }
}

/// Adding a control to a standard gate adds one qubit and no parameter:
/// where both a name and the name with a leading `c` are standard gates (`x`
/// and `cx`, `h` and `ch`, `rz` and `crz`, `cx` and `ccx`, `swap` and `cswap`,
/// ...), the second takes as many parameters as the first and one qubit more.
pub proof fn law_control_prefix_adds_a_qubit(g: Seq<char>)
    ensures
        match (standard_sig(seq!['c'] + g), standard_sig(g)) {
            (Some((p2, q2)), Some((p, q))) => p2 == p && q2 == q + 1,
            _ => true,
        },
{
    crate::text::lemma_eq_ignore_case_lowered();
    reveal_strlit("u");
    reveal_strlit("gphase");
    reveal_strlit("id");
    reveal_strlit("x");
    reveal_strlit("y");
    reveal_strlit("z");
    reveal_strlit("h");
    reveal_strlit("s");
    reveal_strlit("sdg");
    reveal_strlit("t");
    reveal_strlit("tdg");
    reveal_strlit("sx");
    reveal_strlit("p");
    reveal_strlit("rx");
    reveal_strlit("ry");
    reveal_strlit("rz");
    reveal_strlit("cx");
    reveal_strlit("cnot");
    reveal_strlit("cy");
    reveal_strlit("cz");
    reveal_strlit("ch");
    reveal_strlit("swap");
    reveal_strlit("cp");
    reveal_strlit("crx");
    reveal_strlit("cry");
    reveal_strlit("crz");
    reveal_strlit("ccx");
    reveal_strlit("cswap");
    reveal_strlit("not");
    assert(crate::text::ascii_lowered("u"@) =~= "u"@);
    assert(crate::text::ascii_lowered("gphase"@) =~= "gphase"@);
    assert(crate::text::ascii_lowered("id"@) =~= "id"@);
    assert(crate::text::ascii_lowered("x"@) =~= "x"@);
    assert(crate::text::ascii_lowered("y"@) =~= "y"@);
    assert(crate::text::ascii_lowered("z"@) =~= "z"@);
    assert(crate::text::ascii_lowered("h"@) =~= "h"@);
    assert(crate::text::ascii_lowered("s"@) =~= "s"@);
    assert(crate::text::ascii_lowered("sdg"@) =~= "sdg"@);
    assert(crate::text::ascii_lowered("t"@) =~= "t"@);
    assert(crate::text::ascii_lowered("tdg"@) =~= "tdg"@);
    assert(crate::text::ascii_lowered("sx"@) =~= "sx"@);
    assert(crate::text::ascii_lowered("p"@) =~= "p"@);
    assert(crate::text::ascii_lowered("rx"@) =~= "rx"@);
    assert(crate::text::ascii_lowered("ry"@) =~= "ry"@);
    assert(crate::text::ascii_lowered("rz"@) =~= "rz"@);
    assert(crate::text::ascii_lowered("cx"@) =~= "cx"@);
    assert(crate::text::ascii_lowered("cnot"@) =~= "cnot"@);
    assert(crate::text::ascii_lowered("cy"@) =~= "cy"@);
    assert(crate::text::ascii_lowered("cz"@) =~= "cz"@);
    assert(crate::text::ascii_lowered("ch"@) =~= "ch"@);
    assert(crate::text::ascii_lowered("swap"@) =~= "swap"@);
    assert(crate::text::ascii_lowered("cp"@) =~= "cp"@);
    assert(crate::text::ascii_lowered("crx"@) =~= "crx"@);
    assert(crate::text::ascii_lowered("cry"@) =~= "cry"@);
    assert(crate::text::ascii_lowered("crz"@) =~= "crz"@);
    assert(crate::text::ascii_lowered("ccx"@) =~= "ccx"@);
    assert(crate::text::ascii_lowered("cswap"@) =~= "cswap"@);
    assert(crate::text::ascii_lowered("not"@) =~= "not"@);
    assert("u"@[0] == 'u');
    assert("gphase"@[0] == 'g' && "gphase"@[1] == 'p' && "gphase"@[2] == 'h' && "gphase"@[3] == 'a' && "gphase"@[4] == 's' && "gphase"@[5] == 'e');
    assert("id"@[0] == 'i' && "id"@[1] == 'd');
    assert("x"@[0] == 'x');
    assert("y"@[0] == 'y');
    assert("z"@[0] == 'z');
    assert("h"@[0] == 'h');
    assert("s"@[0] == 's');
    assert("sdg"@[0] == 's' && "sdg"@[1] == 'd' && "sdg"@[2] == 'g');
    assert("t"@[0] == 't');
    assert("tdg"@[0] == 't' && "tdg"@[1] == 'd' && "tdg"@[2] == 'g');
    assert("sx"@[0] == 's' && "sx"@[1] == 'x');
    assert("p"@[0] == 'p');
    assert("rx"@[0] == 'r' && "rx"@[1] == 'x');
    assert("ry"@[0] == 'r' && "ry"@[1] == 'y');
    assert("rz"@[0] == 'r' && "rz"@[1] == 'z');
    assert("cx"@[0] == 'c' && "cx"@[1] == 'x');
    assert("cnot"@[0] == 'c' && "cnot"@[1] == 'n' && "cnot"@[2] == 'o' && "cnot"@[3] == 't');
    assert("cy"@[0] == 'c' && "cy"@[1] == 'y');
    assert("cz"@[0] == 'c' && "cz"@[1] == 'z');
    assert("ch"@[0] == 'c' && "ch"@[1] == 'h');
    assert("swap"@[0] == 's' && "swap"@[1] == 'w' && "swap"@[2] == 'a' && "swap"@[3] == 'p');
    assert("cp"@[0] == 'c' && "cp"@[1] == 'p');
    assert("crx"@[0] == 'c' && "crx"@[1] == 'r' && "crx"@[2] == 'x');
    assert("cry"@[0] == 'c' && "cry"@[1] == 'r' && "cry"@[2] == 'y');
    assert("crz"@[0] == 'c' && "crz"@[1] == 'r' && "crz"@[2] == 'z');
    assert("ccx"@[0] == 'c' && "ccx"@[1] == 'c' && "ccx"@[2] == 'x');
    assert("cswap"@[0] == 'c' && "cswap"@[1] == 's' && "cswap"@[2] == 'w' && "cswap"@[3] == 'a' && "cswap"@[4] == 'p');
    assert("not"@[0] == 'n' && "not"@[1] == 'o' && "not"@[2] == 't');
    let n = seq!['c'] + g;
    let small = crate::text::ascii_lowered(g);
    let big = crate::text::ascii_lowered(n);
    assert(big =~= seq!['c'] + small);
    assert(big[0] == 'c');
    if big == "cx"@ {
        assert(small =~= "x"@);
    }
    if big == "cnot"@ {
        assert(small =~= "not"@);
    }
    if big == "cy"@ {
        assert(small =~= "y"@);
    }
    if big == "cz"@ {
        assert(small =~= "z"@);
    }
    if big == "ch"@ {
        assert(small =~= "h"@);
    }
    if big == "cp"@ {
        assert(small =~= "p"@);
    }
    if big == "crx"@ {
        assert(small =~= "rx"@);
    }
    if big == "cry"@ {
        assert(small =~= "ry"@);
    }
    if big == "crz"@ {
        assert(small =~= "rz"@);
    }
    if big == "ccx"@ {
        assert(small =~= "cx"@);
    }
    if big == "cswap"@ {
        assert(small =~= "swap"@);
    }
}

/// The checker's gate table agrees with the optimizer's gate algebra: a gate
/// that turns one qubit about a fixed axis takes no parameter and one qubit,
/// a single-angle rotation takes one parameter and one qubit, and a gate that
/// squares to the identity takes no parameter and at least one qubit.
pub proof fn law_gate_table_matches_gate_algebra(g: Seq<char>)
    ensures
        crate::opt::fixed_turn(g) is Some ==> standard_sig(g) == Some((0usize, 1usize)),
        crate::opt::rotation(g) ==> standard_sig(g) == Some((1usize, 1usize)),
        crate::opt::involution(g) ==> (standard_sig(g) matches Some((params, qubits)) && params == 0 && qubits
            >= 1),
{
    crate::text::lemma_eq_ignore_case_lowered();
    reveal_strlit("u");
    reveal_strlit("gphase");
    reveal_strlit("id");
    reveal_strlit("x");
    reveal_strlit("y");
    reveal_strlit("z");
    reveal_strlit("h");
    reveal_strlit("s");
    reveal_strlit("sdg");
    reveal_strlit("t");
    reveal_strlit("tdg");
    reveal_strlit("sx");
    reveal_strlit("p");
    reveal_strlit("rx");
    reveal_strlit("ry");
    reveal_strlit("rz");
    reveal_strlit("cx");
    reveal_strlit("cnot");
    reveal_strlit("cy");
    reveal_strlit("cz");
    reveal_strlit("ch");
    reveal_strlit("swap");
    reveal_strlit("cp");
    reveal_strlit("crx");
    reveal_strlit("cry");
    reveal_strlit("crz");
    reveal_strlit("ccx");
    reveal_strlit("cswap");
    assert(crate::text::ascii_lowered("u"@) =~= "u"@);
    assert(crate::text::ascii_lowered("gphase"@) =~= "gphase"@);
    assert(crate::text::ascii_lowered("id"@) =~= "id"@);
    assert(crate::text::ascii_lowered("x"@) =~= "x"@);
    assert(crate::text::ascii_lowered("y"@) =~= "y"@);
    assert(crate::text::ascii_lowered("z"@) =~= "z"@);
    assert(crate::text::ascii_lowered("h"@) =~= "h"@);
    assert(crate::text::ascii_lowered("s"@) =~= "s"@);
    assert(crate::text::ascii_lowered("sdg"@) =~= "sdg"@);
    assert(crate::text::ascii_lowered("t"@) =~= "t"@);
    assert(crate::text::ascii_lowered("tdg"@) =~= "tdg"@);
    assert(crate::text::ascii_lowered("sx"@) =~= "sx"@);
    assert(crate::text::ascii_lowered("p"@) =~= "p"@);
    assert(crate::text::ascii_lowered("rx"@) =~= "rx"@);
    assert(crate::text::ascii_lowered("ry"@) =~= "ry"@);
    assert(crate::text::ascii_lowered("rz"@) =~= "rz"@);
    assert(crate::text::ascii_lowered("cx"@) =~= "cx"@);
    assert(crate::text::ascii_lowered("cnot"@) =~= "cnot"@);
    assert(crate::text::ascii_lowered("cy"@) =~= "cy"@);
    assert(crate::text::ascii_lowered("cz"@) =~= "cz"@);
    assert(crate::text::ascii_lowered("ch"@) =~= "ch"@);
    assert(crate::text::ascii_lowered("swap"@) =~= "swap"@);
    assert(crate::text::ascii_lowered("cp"@) =~= "cp"@);
    assert(crate::text::ascii_lowered("crx"@) =~= "crx"@);
    assert(crate::text::ascii_lowered("cry"@) =~= "cry"@);
    assert(crate::text::ascii_lowered("crz"@) =~= "crz"@);
    assert(crate::text::ascii_lowered("ccx"@) =~= "ccx"@);
    assert(crate::text::ascii_lowered("cswap"@) =~= "cswap"@);
    assert("u"@[0] == 'u');
    assert("gphase"@[0] == 'g' && "gphase"@[1] == 'p' && "gphase"@[2] == 'h' && "gphase"@[3] == 'a' && "gphase"@[4] == 's' && "gphase"@[5] == 'e');
    assert("id"@[0] == 'i' && "id"@[1] == 'd');
    assert("x"@[0] == 'x');
    assert("y"@[0] == 'y');
    assert("z"@[0] == 'z');
    assert("h"@[0] == 'h');
    assert("s"@[0] == 's');
    assert("sdg"@[0] == 's' && "sdg"@[1] == 'd' && "sdg"@[2] == 'g');
    assert("t"@[0] == 't');
    assert("tdg"@[0] == 't' && "tdg"@[1] == 'd' && "tdg"@[2] == 'g');
    assert("sx"@[0] == 's' && "sx"@[1] == 'x');
    assert("p"@[0] == 'p');
    assert("rx"@[0] == 'r' && "rx"@[1] == 'x');
    assert("ry"@[0] == 'r' && "ry"@[1] == 'y');
    assert("rz"@[0] == 'r' && "rz"@[1] == 'z');
    assert("cx"@[0] == 'c' && "cx"@[1] == 'x');
    assert("cnot"@[0] == 'c' && "cnot"@[1] == 'n' && "cnot"@[2] == 'o' && "cnot"@[3] == 't');
    assert("cy"@[0] == 'c' && "cy"@[1] == 'y');
    assert("cz"@[0] == 'c' && "cz"@[1] == 'z');
    assert("ch"@[0] == 'c' && "ch"@[1] == 'h');
    assert("swap"@[0] == 's' && "swap"@[1] == 'w' && "swap"@[2] == 'a' && "swap"@[3] == 'p');
    assert("cp"@[0] == 'c' && "cp"@[1] == 'p');
    assert("crx"@[0] == 'c' && "crx"@[1] == 'r' && "crx"@[2] == 'x');
    assert("cry"@[0] == 'c' && "cry"@[1] == 'r' && "cry"@[2] == 'y');
    assert("crz"@[0] == 'c' && "crz"@[1] == 'r' && "crz"@[2] == 'z');
    assert("ccx"@[0] == 'c' && "ccx"@[1] == 'c' && "ccx"@[2] == 'x');
    assert("cswap"@[0] == 'c' && "cswap"@[1] == 's' && "cswap"@[2] == 'w' && "cswap"@[3] == 'a' && "cswap"@[4] == 'p');
}

/// Analysis never withdraws a diagnostic: the diagnostics after a statement
/// list begin with those before it.
pub proof fn law_diagnostics_accumulate(st: SemaState, ss: Seq<Stmt>)
    requires
        st.scopes.len() > 0,
    ensures
        st.diags.is_prefix_of(stmts_step(st, ss).diags),
{
    lemma_stmts_frame(st, ss);
}

/// Names declared inside a block (gate body, branch, loop) are not visible
/// after it: the scopes after the statement are those before it.
pub proof fn law_blocks_keep_scopes(st: SemaState, s: Stmt)
    requires
        st.scopes.len() > 0,
        s is If || s is For || s is While || s is GateDef,
    ensures
        stmt_step(st, s).scopes == st.scopes,
{
    lemma_stmt_frame(st, s);
    let r = stmt_step(st, s);
    match s {
        Stmt::GateDef { params, qparams, body, span, name } => {
            let scope = bind_all(
                bind_all(
                    Map::empty(),
                    params@,
                    Symbol { kind: SymbolKind::GateParam, size: None, decl_span: span },
                ),
                qparams@,
                Symbol { kind: SymbolKind::GateQubit, size: None, decl_span: span },
            );
            let d = if st.gates.contains_key(name@) {
                seq![err("gate `"@ + name@ + "` is already defined"@, span)]
            } else {
                seq![]
            };
            let st0 = SemaState {
                gates: st.gates.insert(
                    name@,
                    GateSig {
                        param_count: params@.len() as usize,
                        qubit_count: qparams@.len() as usize,
                        decl_span: span,
                    },
                ),
                diags: st.diags + d,
                ..st
            };
            lemma_block_scopes(st0, body@, scope);
        },
        Stmt::If { condition, then_body, else_body, .. } => {
            let st1 = with_diags(
                st,
                require_type_diags(st.scopes, st.functions, condition, ClassicalType::Bool, "if condition"@),
            );
            lemma_block_scopes(st1, then_body@, Map::empty());
            assert(push_scope(st1) == SemaState { scopes: st1.scopes.push(Map::empty()), ..st1 });
            let st2 = pop_scope(stmts_step(push_scope(st1), then_body@));
            match else_body {
                Some(eb) => {
                    let st2m = with_measured(st2, st1.measured);
                    lemma_block_scopes(st2m, eb@, Map::empty());
                    assert(push_scope(st2m) == SemaState { scopes: st2m.scopes.push(Map::empty()), ..st2m });
                },
                None => {},
            }
        },
        Stmt::For { var_name, var_ty, range, body, span } => {
            let st1 = with_diags(st, for_header_diags(st.scopes, st.functions, var_ty, range, span));
            let inner = Map::empty().insert(
                var_name@,
                Symbol { kind: SymbolKind::Classical(var_ty), size: None, decl_span: span },
            );
            lemma_block_scopes(st1, body@, inner);
        },
        Stmt::While { condition, body, .. } => {
            let st1 = with_diags(
                st,
                require_type_diags(st.scopes, st.functions, condition, ClassicalType::Bool, "while condition"@),
            );
            lemma_block_scopes(st1, body@, Map::empty());
            assert(push_scope(st1) == SemaState { scopes: st1.scopes.push(Map::empty()), ..st1 });
        },
        _ => {},
    }
}

/// Measuring an unsliced operand makes any later use of it an error that
/// points at the measurement.
pub proof fn law_measured_operand_is_reported(
    st: SemaState,
    qubit: GateOperand,
    target: Option<GateOperand>,
    span: Span,
    use_span: Span,
)
    requires
        qubit.slice is None,
    ensures
        use_after_measure_diags(
            stmt_step(st, Stmt::Measure { qubit, target, span }).measured,
            qubit,
            use_span,
        ).len() == 1,
{
    let m = stmt_step(st, Stmt::Measure { qubit, target, span }).measured;
    assert(m.contains_key((qubit.name@, qubit.index)));
}

/// Measuring a whole register marks each of its declared indices.
pub proof fn law_register_measure_marks_each_index(
    st: SemaState,
    qubit: GateOperand,
    target: Option<GateOperand>,
    span: Span,
    i: u64,
)
    requires
        qubit.slice is None,
        qubit.index is None,
        lookup_symbol(st.scopes, qubit.name@) matches Some(sym) && sym.size matches Some(n) && i < n,
    ensures
        lookup_measured_spec(
            stmt_step(st, Stmt::Measure { qubit, target, span }).measured,
            qubit.name@,
            Some(i),
        ) == Some(span),
{
    let m = stmt_step(st, Stmt::Measure { qubit, target, span }).measured;
    let n = lookup_symbol(st.scopes, qubit.name@).unwrap().size.unwrap();
    assert(index_range(qubit.name@, 0, n as int, span).contains_key((qubit.name@, Some(i))));
    assert(m.contains_key((qubit.name@, Some(i))));
}

/// Resetting a whole register (no index, no slice) clears every measurement
/// of it, so no later use of any of its qubits is reported.
pub proof fn law_reset_clears_register(st: SemaState, target: GateOperand, span: Span, index: Option<u64>)
    requires
        target.slice is None,
        target.index is None,
    ensures
        lookup_measured_spec(
            stmt_step(st, Stmt::Reset { target, span }).measured,
            target.name@,
            index,
        ) is None,
{
}

/// A qubit measured before a loop, or before an `if` without `else`, is
/// still measured after it (conservative merge).
pub proof fn law_loops_and_one_armed_ifs_keep_measured(st: SemaState, s: Stmt, k: QubitKey)
    requires
        s is For || s is While || (s matches Stmt::If { else_body, .. } && else_body is None),
        st.measured.contains_key(k),
    ensures
        stmt_step(st, s).measured.contains_key(k),
{
}

/// After `if`/`else`, a qubit measured at the end of either branch is
/// measured (union at the merge point).
pub proof fn law_if_else_is_union(
    st: SemaState,
    condition: Expr,
    then_body: Vec<Stmt>,
    else_body: Vec<Stmt>,
    span: Span,
    k: QubitKey,
)
    ensures
        ({
            let st1 = with_diags(
                st,
                require_type_diags(st.scopes, st.functions, condition, ClassicalType::Bool, "if condition"@),
            );
            let st2 = pop_scope(stmts_step(push_scope(st1), then_body@));
            let st3 = pop_scope(stmts_step(push_scope(with_measured(st2, st1.measured)), else_body@));
            let after = stmt_step(
                st,
                Stmt::If { condition, then_body, else_body: Some(else_body), span },
            ).measured;
            (st2.measured.contains_key(k) || st3.measured.contains_key(k)) <==> after.contains_key(k)
        }),
{
}

} // verus!
