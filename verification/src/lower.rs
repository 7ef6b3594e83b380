//! AST → circuit lowering.
//!
//! Resolves qubit and bit names to wire indices and builds circuit DAGs.
//! `lower_straight_line` turns a program without control flow into one DAG;
//! `lower_hir` keeps control flow and declarations as HIR statements and
//! turns each run of quantum operations into its own DAG. A gate applied to
//! whole registers is broadcast: one gate per register index.

use vstd::prelude::*;

use crate::ast::{clone_stmt, BinOp, ConstKind, Expr, GateModifier, GateOperand, Program, Stmt};
use crate::syntax::{expr_model, range_model, stmt_model};
use crate::codegen::{emit_expr, emit_operand, expr_text, operand_text};
use crate::consteval::{const_int, eval_int};
use crate::hir::{hir_stmt_wf, hir_stmts_wf, HirProgram, HirStmt};
use crate::ir::{alloc_spec, complete_topological, finalize_spec, has_edge, op_qubits, thread_spec, CircuitDAG, DAGNode, Edges, Modifier, Op, Param, ParamOp, param_text};
use crate::text::{str_eq, string_of};

verus! {

broadcast use vstd::seq::group_seq_axioms;

// ── Lowering errors ─────────────────────────────────────────

#[derive(Debug)]
pub struct LowerError {
    pub message: String,
}

fn err(message: String) -> (r: LowerError)
    ensures
        r.message@ == message@,
{
    LowerError { message }
}

/// The message for control flow met while lowering into one circuit.
pub open spec fn control_flow_message() -> Seq<char> {
    "classical control flow is not yet supported in IR lowering — only straight-line quantum circuits can be lowered"@
}

// ── Expression lowering ─────────────────────────────────────

pub open spec fn param_op_of(op: BinOp) -> ParamOp {
    match op {
        BinOp::Add => ParamOp::Add,
        BinOp::Sub => ParamOp::Sub,
        BinOp::Mul => ParamOp::Mul,
        BinOp::Div => ParamOp::Div,
        BinOp::Pow => ParamOp::Pow,
    }
}

/// The text a parameter built from `e` prints as: the expression's own text
/// for names, literals and calls; arithmetic is rebuilt structurally.
pub open spec fn param_text_of(e: Expr) -> Seq<char>
    decreases e,
{
    match e {
        Expr::IntLit(n, _) => param_text(Param::Int(n)),
        Expr::FloatLit(t, _) => t@,
        Expr::BoolLit(b, _) => if b {
            "1"@
        } else {
            "0"@
        },
        Expr::Ident(name, _) => name@,
        Expr::Index { .. } | Expr::Call { .. } => expr_text(e),
        Expr::Const(k, _) => match k {
            ConstKind::Pi => "pi"@,
            ConstKind::Tau => "tau"@,
            ConstKind::Euler => "euler"@,
        },
        Expr::Neg(inner, _) => "-"@ + param_text_of(*inner),
        Expr::BinOp { op, lhs, rhs, .. } => "("@ + param_text_of(*lhs) + " "@ + crate::ir::param_op_text(
            param_op_of(op),
        ) + " "@ + param_text_of(*rhs) + ")"@,
        Expr::Compare { .. } => "0"@,
    }
}

fn param_op(op: BinOp) -> (r: ParamOp)
    ensures
        r == param_op_of(op),
{
    match op {
        BinOp::Add => ParamOp::Add,
        BinOp::Sub => ParamOp::Sub,
        BinOp::Mul => ParamOp::Mul,
        BinOp::Div => ParamOp::Div,
        BinOp::Pow => ParamOp::Pow,
    }
}

/// Lowering keeps each arithmetic operator: the parameter operator that a
/// source operator lowers to prints as that source operator, so the text of a
/// lowered arithmetic expression shows the written operator between the texts
/// of its operands.
pub proof fn law_lowering_keeps_operator(op: BinOp, lhs: Expr, rhs: Expr, span: crate::span::Span)
    ensures
        crate::ir::param_op_text(param_op_of(op)) == crate::ast::bin_op_text(op),
        param_text_of((Expr::BinOp { op, lhs: Box::new(lhs), rhs: Box::new(rhs), span })) == "("@
            + param_text_of(lhs) + " "@ + crate::ast::bin_op_text(op) + " "@ + param_text_of(rhs) + ")"@,
{
}

/// Lower a classical expression to a gate parameter.
pub fn lower_expr(expr: &Expr) -> (r: Param)
    ensures
        param_text(r) == param_text_of(*expr),
    decreases expr,
{
    match expr {
        Expr::IntLit(n, _) => Param::Int(*n),
        Expr::FloatLit(t, _) => Param::Float(t.clone()),
        Expr::BoolLit(b, _) => {
            proof {
                reveal_strlit("1");
                reveal_strlit("0");
            }
            Param::Int(
                if *b {
                    1
                } else {
                    0
                },
            )
        },
        Expr::Ident(name, _) => Param::Ident(name.clone()),
        Expr::Index { .. } | Expr::Call { .. } => {
            let mut text = String::new();
            emit_expr(&mut text, expr);
            assert(text@ =~= expr_text(*expr));
            Param::Ident(text)
        },
        Expr::Const(kind, _) => match kind {
            ConstKind::Pi => Param::Pi,
            ConstKind::Tau => Param::Tau,
            ConstKind::Euler => Param::Euler,
        },
        Expr::Neg(inner, _) => Param::Neg(Box::new(lower_expr(inner))),
        Expr::BinOp { op, lhs, rhs, .. } => Param::BinOp {
            op: param_op(*op),
            lhs: Box::new(lower_expr(lhs)),
            rhs: Box::new(lower_expr(rhs)),
        },
        Expr::Compare { .. } => {
            proof {
                reveal_strlit("0");
            }
            Param::Int(0)
        },
    }
}

/// A control count known at compile time.
pub open spec fn count_of(arg: Option<Expr>) -> Option<u64> {
    match arg {
        Some(e) => match const_int(e) {
            Some(v) => if 0 <= v <= u64::MAX {
                Some(v as u64)
            } else {
                None
            },
            None => None,
        },
        None => None,
    }
}

fn lower_count(arg: &Option<Expr>) -> (r: Option<u64>)
    ensures
        r == count_of(*arg),
{
    match arg {
        Some(e) => match eval_int(e) {
            Some(v) => if 0 <= v && v <= 18446744073709551615 {
                Some(v as u64)
            } else {
                None
            },
            None => None,
        },
        None => None,
    }
}

/// `r` is the IR modifier that `m` lowers to.
pub open spec fn lowered_modifier(m: GateModifier, r: Modifier) -> bool {
    match (m, r) {
        (GateModifier::Ctrl(arg, _), Modifier::Ctrl(n)) => n == count_of(arg),
        (GateModifier::NegCtrl(arg, _), Modifier::NegCtrl(n)) => n == count_of(arg),
        (GateModifier::Inv(_), Modifier::Inv) => true,
        (GateModifier::Pow(e, _), Modifier::Pow(p)) => param_text(p) == param_text_of(e),
        _ => false,
    }
}

/// How many leading characters of a modifier's text spell its keyword.
pub open spec fn modifier_keyword_len(m: GateModifier) -> int {
    match m {
        GateModifier::Ctrl(..) => 4,
        GateModifier::NegCtrl(..) => 7,
        GateModifier::Inv(_) => 3,
        GateModifier::Pow(..) => 3,
    }
}

/// Lowering keeps a modifier's kind: the circuit's text of a lowered modifier
/// starts with the same keyword as the source text of the modifier (the whole
/// texts agree where a control has no argument or an integer literal one, and
/// for `inv`), and no negative control prints like a positive one.
pub proof fn law_lowered_modifier_keeps_kind(m: GateModifier, r: Modifier, a: Option<u64>, b: Option<u64>)
    requires
        lowered_modifier(m, r),
    ensures
        crate::ir::modifier_text(r).take(modifier_keyword_len(m)) == crate::codegen::modifier_text(m).take(
            modifier_keyword_len(m),
        ),
        (m matches GateModifier::Ctrl(None, _)) || (m matches GateModifier::NegCtrl(None, _)) || (m is Inv)
            ==> crate::ir::modifier_text(r) == crate::codegen::modifier_text(m),
        (m matches GateModifier::Ctrl(Some(Expr::IntLit(_, _)), _)) || (m matches GateModifier::NegCtrl(
            Some(Expr::IntLit(_, _)),
            _,
        )) ==> crate::ir::modifier_text(r) == crate::codegen::modifier_text(m),
        crate::ir::modifier_text(Modifier::NegCtrl(a)) != crate::ir::modifier_text(Modifier::Ctrl(b)),
{
    reveal_strlit("ctrl");
    reveal_strlit("negctrl");
    reveal_strlit("inv @ ");
    reveal_strlit("pow(");
    let ir_text = crate::ir::modifier_text(r);
    let src_text = crate::codegen::modifier_text(m);
    let k = modifier_keyword_len(m);
    assert(ir_text.take(k) =~= src_text.take(k));
    let n = crate::ir::modifier_text(Modifier::NegCtrl(a));
    let c = crate::ir::modifier_text(Modifier::Ctrl(b));
    assert(n[0] == 'n');
    assert(c[0] == 'c');
}

/// Lower a gate modifier; control counts are evaluated at compile time.
pub fn lower_modifier(m: &GateModifier) -> (r: Modifier)
    ensures
        lowered_modifier(*m, r),
{
    match m {
        GateModifier::Ctrl(arg, _) => Modifier::Ctrl(lower_count(arg)),
        GateModifier::NegCtrl(arg, _) => Modifier::NegCtrl(lower_count(arg)),
        GateModifier::Inv(_) => Modifier::Inv,
        GateModifier::Pow(e, _) => Modifier::Pow(lower_expr(e)),
    }
}

// ── Wire mapping ────────────────────────────────────────────

/// Position of the last entry with the given name and index.
pub open spec fn key_index(names: Seq<(Seq<char>, Option<u64>)>, name: Seq<char>, index: Option<u64>) -> Option<
    usize,
>
    decreases names.len(),
{
    if names.len() == 0 {
        None
    } else if names.last().0 == name && names.last().1 == index {
        Some((names.len() - 1) as usize)
    } else {
        key_index(names.drop_last(), name, index)
    }
}

proof fn lemma_key_index_bound(names: Seq<(Seq<char>, Option<u64>)>, name: Seq<char>, index: Option<u64>)
    ensures
        key_index(names, name, index) matches Some(k) ==> k < names.len(),
    decreases names.len(),
{
    if names.len() > 0 {
        lemma_key_index_bound(names.drop_last(), name, index);
    }
}

/// Where the register run of `name` stops: the first index from `i` on that
/// names no entry (or the number of entries).
pub open spec fn run_end(names: Seq<(Seq<char>, Option<u64>)>, name: Seq<char>, i: int) -> int
    decreases names.len() - i,
{
    if i < 0 || i >= names.len() || key_index(names, name, Some(i as u64)) is None {
        i
    } else {
        run_end(names, name, i + 1)
    }
}

/// The wires of entries `name[a]` .. `name[b - 1]`, if each exists.
pub open spec fn indexed_wires(names: Seq<(Seq<char>, Option<u64>)>, name: Seq<char>, a: int, b: int) -> Option<
    Seq<usize>,
>
    decreases b - a,
{
    if b <= a {
        Some(seq![])
    } else {
        match indexed_wires(names, name, a, b - 1) {
            Some(p) => match key_index(names, name, Some((b - 1) as u64)) {
                Some(w) => Some(p.push(w)),
                None => None,
            },
            None => None,
        }
    }
}

/// Wires of an operand: the one indexed wire, the wires of a slice, the
/// single unindexed wire, or every wire of a register in index order; none
/// when a name or index is not declared (or a slice or register is empty).
pub open spec fn operand_wires(names: Seq<(Seq<char>, Option<u64>)>, op: GateOperand) -> Option<Seq<usize>> {
    match op.index {
        Some(i) => match key_index(names, op.name@, Some(i)) {
            Some(w) => Some(seq![w]),
            None => None,
        },
        None => match op.slice {
            Some((a, b)) => if a <= b {
                indexed_wires(names, op.name@, a as int, b + 1)
            } else {
                None
            },
            None => match key_index(names, op.name@, None) {
                Some(w) => Some(seq![w]),
                None => if run_end(names, op.name@, 0) == 0 {
                    None
                } else {
                    indexed_wires(names, op.name@, 0, run_end(names, op.name@, 0))
                },
            },
        },
    }
}

/// Entries of a declared register: one per index, or one unindexed wire.
pub open spec fn register_entries(name: Seq<char>, size: Option<u64>) -> Seq<(Seq<char>, Option<u64>)> {
    match size {
        Some(n) => Seq::new(n as nat, |i: int| (name, Some(i as u64))),
        None => seq![(name, None)],
    }
}

pub open spec fn names_view(names: Seq<(String, Option<u64>)>) -> Seq<(Seq<char>, Option<u64>)> {
    names.map_values(|e: (String, Option<u64>)| (e.0@, e.1))
}

/// Maps qubit and bit names to wire indices: entry `k` of a list is wire `k`.
struct WireMap {
    qubit_names: Vec<(String, Option<u64>)>,
    bit_names: Vec<(String, Option<u64>)>,
}

fn opt_eq(a: Option<u64>, b: Option<u64>) -> (r: bool)
    ensures
        r == (a == b),
{
    match (a, b) {
        (Some(x), Some(y)) => x == y,
        (None, None) => true,
        _ => false,
    }
}

fn lookup(names: &Vec<(String, Option<u64>)>, name: &str, index: Option<u64>) -> (r: Option<usize>)
    ensures
        r == key_index(names_view(names@), name@, index),
        r matches Some(k) ==> k < names@.len(),
{
    let ghost s = names_view(names@);
    let mut i: usize = names.len();
    assert(s.take(i as int) =~= s);
    while i > 0
        invariant
            s == names_view(names@),
            i <= s.len(),
            key_index(s, name@, index) == key_index(s.take(i as int), name@, index),
        decreases i,
    {
        assert(s.take(i as int).drop_last() =~= s.take(i - 1));
        assert(s.take(i as int).last() == s[i - 1]);
        if str_eq(names[i - 1].0.as_str(), name) && opt_eq(names[i - 1].1, index) {
            return Some(i - 1);
        }
        i -= 1;
    }
    assert(s.take(0) =~= Seq::<(Seq<char>, Option<u64>)>::empty());
    None
}

fn add_register(names: &mut Vec<(String, Option<u64>)>, name: &str, size: Option<u64>)
    ensures
        names_view(final(names)@) == names_view(old(names)@) + register_entries(name@, size),
{
    match size {
        Some(n) => {
            let mut i: u64 = 0;
            while i < n
                invariant
                    i <= n,
                    size == Some(n),
                    names_view(names@) =~= names_view(old(names)@) + register_entries(name@, size).take(
                        i as int,
                    ),
                decreases n - i,
            {
                let ghost before = names@;
                names.push((string_of(name), Some(i)));
                proof {
                    assert(names_view(names@) =~= names_view(before).push((name@, Some(i))));
                    assert(register_entries(name@, size).take(i + 1) =~= register_entries(name@, size).take(
                        i as int,
                    ).push((name@, Some(i))));
                }
                i += 1;
            }
            assert(register_entries(name@, size).take(n as int) =~= register_entries(name@, size));
        },
        None => {
            names.push((string_of(name), None));
            assert(names_view(names@) =~= names_view(old(names)@) + register_entries(name@, size));
        },
    }
}

/// The error text for an operand that names no declared wire.
pub open spec fn unresolved(kind: Seq<char>, op: GateOperand) -> Seq<char> {
    "unresolved "@ + kind + " `"@ + operand_text(op) + "`"@
}

fn unresolved_error(kind: &str, op: &GateOperand) -> (r: LowerError)
    ensures
        r.message@ == unresolved(kind@, *op),
{
    let mut m = string_of("unresolved ");
    m.append(kind);
    m.append(" `");
    emit_operand(&mut m, op);
    m.append("`");
    assert(m@ =~= unresolved(kind@, *op));
    err(m)
}

proof fn lemma_indexed_none(names: Seq<(Seq<char>, Option<u64>)>, name: Seq<char>, a: int, j: int, k: int)
    requires
        a <= j <= k,
        indexed_wires(names, name, a, j) is None,
    ensures
        indexed_wires(names, name, a, k) is None,
    decreases k - j,
{
    if j < k {
        lemma_indexed_none(names, name, a, j, k - 1);
    }
}

proof fn lemma_indexed_bound(names: Seq<(Seq<char>, Option<u64>)>, name: Seq<char>, a: int, b: int)
    ensures
        indexed_wires(names, name, a, b) matches Some(ws) ==> ws.len() == if b > a {
            b - a
        } else {
            0
        } && forall|k: int| 0 <= k < ws.len() ==> #[trigger] ws[k] < names.len(),
    decreases b - a,
{
    if b > a {
        lemma_indexed_bound(names, name, a, b - 1);
        lemma_key_index_bound(names, name, Some((b - 1) as u64));
    }
}

/// Wires of an operand (see [`operand_wires`]).
fn resolve_operand(names: &Vec<(String, Option<u64>)>, op: &GateOperand, kind: &str) -> (r: Result<
    Vec<usize>,
    LowerError,
>)
    ensures
        r matches Ok(ws) ==> ws@.len() > 0 && forall|k: int| 0 <= k < ws@.len() ==> #[trigger] ws@[k] < names@.len(),
        match operand_wires(names_view(names@), *op) {
            Some(ws) => r matches Ok(v) && v@ == ws,
            None => r matches Err(e) && e.message@ == unresolved(kind@, *op),
        },
{
    let ghost nv = names_view(names@);
    let name = op.name.as_str();
    if let Some(i) = op.index {
        return match lookup(names, name, Some(i)) {
            Some(w) => Ok(vec![w]),
            None => Err(unresolved_error(kind, op)),
        };
    }
    if let Some((start, end)) = op.slice {
        let mut wires: Vec<usize> = Vec::new();
        if start <= end {
            let mut i: u64 = start;
            assert(wires@ =~= indexed_wires(nv, name@, start as int, start as int).unwrap());
            loop
                invariant_except_break
                    indexed_wires(nv, name@, start as int, i as int) == Some(wires@),
                invariant
                    start <= i <= end,
                    nv == names_view(names@),
                    name@ == op.name@,
                    op.index is None,
                    op.slice == Some((start, end)),
                    forall|k: int| 0 <= k < wires@.len() ==> #[trigger] wires@[k] < names@.len(),
                ensures
                    indexed_wires(nv, name@, start as int, end + 1) == Some(wires@),
                    wires@.len() > 0,
                    forall|k: int| 0 <= k < wires@.len() ==> #[trigger] wires@[k] < names@.len(),
                decreases end - i,
            {
                match lookup(names, name, Some(i)) {
                    Some(w) => wires.push(w),
                    None => {
                        proof {
                            assert(indexed_wires(nv, name@, start as int, i + 1) is None);
                            lemma_indexed_none(nv, name@, start as int, i + 1, end + 1);
                        }
                        return Err(unresolved_error(kind, op));
                    },
                }
                if i == end {
                    break;
                }
                i += 1;
            }
        }
        if wires.len() == 0 {
            return Err(unresolved_error(kind, op));
        }
        return Ok(wires);
    }
    if let Some(w) = lookup(names, name, None) {
        return Ok(vec![w]);
    }
    let mut wires: Vec<usize> = Vec::new();
    let mut i: usize = 0;
    assert(wires@ =~= indexed_wires(nv, name@, 0, 0).unwrap());
    while i < names.len()
        invariant
            i <= names@.len(),
            nv == names_view(names@),
            nv.len() == names@.len(),
            name@ == op.name@,
            indexed_wires(nv, name@, 0, i as int) == Some(wires@),
            run_end(nv, name@, 0) == run_end(nv, name@, i as int),
            forall|k: int| 0 <= k < wires@.len() ==> #[trigger] wires@[k] < names@.len(),
        ensures
            indexed_wires(nv, name@, 0, i as int) == Some(wires@),
            run_end(nv, name@, 0) == i,
            forall|k: int| 0 <= k < wires@.len() ==> #[trigger] wires@[k] < names@.len(),
        decreases names@.len() - i,
    {
        match lookup(names, name, Some(i as u64)) {
            Some(w) => wires.push(w),
            None => {
                break;
            },
        }
        i += 1;
    }
    proof {
        lemma_indexed_bound(nv, name@, 0, i as int);
    }
    if wires.len() == 0 {
        Err(unresolved_error(kind, op))
    } else {
        Ok(wires)
    }
}

impl WireMap {
    fn new() -> (r: Self)
        ensures
            r.qubit_names@.len() == 0,
            r.bit_names@.len() == 0,
    {
        WireMap { qubit_names: Vec::new(), bit_names: Vec::new() }
    }

    /// The qubit entries, by name and index.
    closed spec fn qubits(&self) -> Seq<(Seq<char>, Option<u64>)> {
        names_view(self.qubit_names@)
    }

    /// The bit entries, by name and index.
    closed spec fn bits(&self) -> Seq<(Seq<char>, Option<u64>)> {
        names_view(self.bit_names@)
    }

    /// Record the wires of every top-level qubit and bit declaration.
    fn collect(stmts: &Vec<Stmt>) -> (r: Self)
        ensures
            r.qubits() == declared(stmts@, true),
            r.bits() == declared(stmts@, false),
    {
        let mut wires = WireMap::new();
        let mut i: usize = 0;
        assert(names_view(wires.qubit_names@) =~= declared(stmts@.take(0), true));
        assert(names_view(wires.bit_names@) =~= declared(stmts@.take(0), false));
        while i < stmts.len()
            invariant
                i <= stmts@.len(),
                names_view(wires.qubit_names@) == declared(stmts@.take(i as int), true),
                names_view(wires.bit_names@) == declared(stmts@.take(i as int), false),
            decreases stmts@.len() - i,
        {
            assert(stmts@.take(i + 1).drop_last() =~= stmts@.take(i as int));
            assert(stmts@.take(i + 1).last() == stmts@[i as int]);
            match &stmts[i] {
                Stmt::QubitDecl { name, size, .. } => {
                    add_register(&mut wires.qubit_names, name.as_str(), *size);
                    assert(names_view(wires.bit_names@) =~= declared(stmts@.take(i + 1), false));
                },
                Stmt::BitDecl { name, size, .. } => {
                    add_register(&mut wires.bit_names, name.as_str(), *size);
                    assert(names_view(wires.qubit_names@) =~= declared(stmts@.take(i + 1), true));
                },
                _ => {
                    assert(names_view(wires.qubit_names@) =~= declared(stmts@.take(i + 1), true));
                    assert(names_view(wires.bit_names@) =~= declared(stmts@.take(i + 1), false));
                },
            }
            i += 1;
        }
        assert(stmts@.take(stmts@.len() as int) =~= stmts@);
        wires
    }

    fn resolve_qubit_operand(&self, op: &GateOperand) -> (r: Result<Vec<usize>, LowerError>)
        ensures
            r matches Ok(ws) ==> ws@.len() > 0 && forall|k: int| 0 <= k < ws@.len() ==> #[trigger] ws@[k] < self.qubit_names@.len(),
            match operand_wires(self.qubits(), *op) {
                Some(ws) => r matches Ok(v) && v@ == ws,
                None => r matches Err(e) && e.message@ == unresolved("qubit"@, *op),
            },
    {
        resolve_operand(&self.qubit_names, op, "qubit")
    }

    fn resolve_bit_operand(&self, op: &GateOperand) -> (r: Result<Vec<usize>, LowerError>)
        ensures
            r matches Ok(ws) ==> ws@.len() > 0 && forall|k: int| 0 <= k < ws@.len() ==> #[trigger] ws@[k] < self.bit_names@.len(),
            match operand_wires(self.bits(), *op) {
                Some(ws) => r matches Ok(v) && v@ == ws,
                None => r matches Err(e) && e.message@ == unresolved("bit"@, *op),
            },
    {
        resolve_operand(&self.bit_names, op, "bit")
    }
}

// ── Statement lowering ──────────────────────────────────────

fn copy_params(v: &Vec<Param>) -> (r: Vec<Param>)
    ensures
        r@ == v@,
{
    let mut out: Vec<Param> = Vec::new();
    let mut i: usize = 0;
    while i < v.len()
        invariant
            i <= v@.len(),
            out@ =~= v@.take(i as int),
        decreases v@.len() - i,
    {
        out.push(v[i].clone());
        i += 1;
    }
    assert(v@.take(v@.len() as int) =~= v@);
    out
}

fn copy_modifiers(v: &Vec<Modifier>) -> (r: Vec<Modifier>)
    ensures
        r@ == v@,
{
    let mut out: Vec<Modifier> = Vec::new();
    let mut i: usize = 0;
    while i < v.len()
        invariant
            i <= v@.len(),
            out@ =~= v@.take(i as int),
        decreases v@.len() - i,
    {
        out.push(v[i].clone());
        i += 1;
    }
    assert(v@.take(v@.len() as int) =~= v@);
    out
}

fn copy_names(v: &Vec<(String, Option<u64>)>) -> (r: Vec<(String, Option<u64>)>)
    ensures
        r@ == v@,
{
    let mut out: Vec<(String, Option<u64>)> = Vec::new();
    let mut i: usize = 0;
    while i < v.len()
        invariant
            i <= v@.len(),
            out@ =~= v@.take(i as int),
        decreases v@.len() - i,
    {
        out.push((v[i].0.clone(), v[i].1));
        i += 1;
    }
    assert(v@.take(v@.len() as int) =~= v@);
    out
}

fn lower_params(v: &Vec<Expr>) -> (r: Vec<Param>)
    ensures
        r@.len() == v@.len(),
        forall|k: int| 0 <= k < v@.len() ==> param_text(#[trigger] r@[k]) == param_text_of(v@[k]),
{
    let mut out: Vec<Param> = Vec::new();
    let mut i: usize = 0;
    while i < v.len()
        invariant
            i <= v@.len(),
            out@.len() == i,
            forall|k: int| 0 <= k < i ==> param_text(#[trigger] out@[k]) == param_text_of(v@[k]),
        decreases v@.len() - i,
    {
        out.push(lower_expr(&v[i]));
        i += 1;
    }
    out
}

fn lower_modifiers(v: &Vec<GateModifier>) -> (r: Vec<Modifier>)
    ensures
        r@.len() == v@.len(),
        forall|k: int| 0 <= k < v@.len() ==> lowered_modifier(v@[k], #[trigger] r@[k]),
{
    let mut out: Vec<Modifier> = Vec::new();
    let mut i: usize = 0;
    while i < v.len()
        invariant
            i <= v@.len(),
            out@.len() == i,
            forall|k: int| 0 <= k < i ==> lowered_modifier(v@[k], #[trigger] out@[k]),
        decreases v@.len() - i,
    {
        out.push(lower_modifier(&v[i]));
        i += 1;
    }
    out
}

// ── What a quantum statement lowers to ─────────────────────

/// The register entries declared at the top level of `stmts`: of qubit
/// registers when `quantum`, of bit registers otherwise.
pub open spec fn declared(stmts: Seq<Stmt>, quantum: bool) -> Seq<(Seq<char>, Option<u64>)>
    decreases stmts.len(),
{
    if stmts.len() == 0 {
        seq![]
    } else {
        declared(stmts.drop_last(), quantum) + match stmts.last() {
            Stmt::QubitDecl { name, size, .. } => if quantum {
                register_entries(name@, size)
            } else {
                seq![]
            },
            Stmt::BitDecl { name, size, .. } => if quantum {
                seq![]
            } else {
                register_entries(name@, size)
            },
            _ => seq![],
        }
    }
}

/// The first operand that names no declared wire.
pub open spec fn first_unresolved(names: Seq<(Seq<char>, Option<u64>)>, ops: Seq<GateOperand>) -> Option<
    GateOperand,
>
    decreases ops.len(),
{
    if ops.len() == 0 {
        None
    } else {
        match first_unresolved(names, ops.drop_last()) {
            Some(o) => Some(o),
            None => if operand_wires(names, ops.last()) is None {
                Some(ops.last())
            } else {
                None
            },
        }
    }
}

/// The wires of each operand.
pub open spec fn operands_wires(names: Seq<(Seq<char>, Option<u64>)>, ops: Seq<GateOperand>) -> Seq<Seq<usize>> {
    Seq::new(ops.len(), |k: int| operand_wires(names, ops[k]).unwrap())
}

/// The broadcast width of operand wire lists: the common length of those
/// with more than one wire (1 if none has), or `None` when two differ.
pub open spec fn broadcast_width(ws: Seq<Seq<usize>>) -> Option<int>
    decreases ws.len(),
{
    if ws.len() == 0 {
        Some(1)
    } else {
        match broadcast_width(ws.drop_last()) {
            Some(w) => if ws.last().len() > 1 {
                if w == 1 {
                    Some(ws.last().len() as int)
                } else if ws.last().len() != w {
                    None
                } else {
                    Some(w)
                }
            } else {
                Some(w)
            },
            None => None,
        }
    }
}

/// The qubits of broadcast index `idx`: a single wire stays, a register
/// contributes its `idx`th wire.
pub open spec fn broadcast_qubits(ws: Seq<Seq<usize>>, idx: int) -> Seq<usize> {
    Seq::new(
        ws.len(),
        |m: int|
            if ws[m].len() == 1 {
                ws[m][0]
            } else {
                ws[m][idx]
            },
    )
}

/// All wires of wire lists, in order.
pub open spec fn flatten(ws: Seq<Seq<usize>>) -> Seq<usize>
    decreases ws.len(),
{
    if ws.len() == 0 {
        seq![]
    } else {
        flatten(ws.drop_last()) + ws.last()
    }
}

pub open spec fn broadcast_message() -> Seq<char> {
    "gate register operands must have the same length for broadcasting"@
}

pub open spec fn measure_mismatch(qubits: nat, bits: nat) -> Seq<char> {
    "measurement source has "@ + crate::text::decimal_text(qubits) + " qubit(s), but target has "@
        + crate::text::decimal_text(bits) + " bit(s)"@
}

/// Why a quantum statement cannot be lowered with the qubit entries `qn` and
/// bit entries `bn`: an undeclared operand (the first), operands of
/// different broadcast widths, or a measurement whose target has another
/// width than its source.
pub open spec fn quantum_failure(
    s: Stmt,
    qn: Seq<(Seq<char>, Option<u64>)>,
    bn: Seq<(Seq<char>, Option<u64>)>,
) -> Option<Seq<char>> {
    match s {
        Stmt::GateCall { args, .. } => match first_unresolved(qn, args@) {
            Some(o) => Some(unresolved("qubit"@, o)),
            None => if broadcast_width(operands_wires(qn, args@)) is None {
                Some(broadcast_message())
            } else {
                None
            },
        },
        Stmt::Measure { qubit, target, .. } => match operand_wires(qn, qubit) {
            None => Some(unresolved("qubit"@, qubit)),
            Some(qs) => match target {
                None => None,
                Some(t) => match operand_wires(bn, t) {
                    None => Some(unresolved("bit"@, t)),
                    Some(bs) => if bs.len() != qs.len() {
                        Some(measure_mismatch(qs.len(), bs.len()))
                    } else {
                        None
                    },
                },
            },
        },
        Stmt::Reset { target, .. } => if operand_wires(qn, target) is None {
            Some(unresolved("qubit"@, target))
        } else {
            None
        },
        Stmt::Barrier { targets, .. } => match first_unresolved(qn, targets@) {
            Some(o) => Some(unresolved("qubit"@, o)),
            None => None,
        },
        Stmt::Delay { targets, .. } => match first_unresolved(qn, targets@) {
            Some(o) => Some(unresolved("qubit"@, o)),
            None => None,
        },
        _ => None,
    }
}

/// How many operations a quantum statement that lowers becomes: one per
/// broadcast index of a gate call, one per measured or reset qubit, one
/// barrier or delay.
pub open spec fn lowered_count(s: Stmt, qn: Seq<(Seq<char>, Option<u64>)>) -> int {
    match s {
        Stmt::GateCall { args, .. } => broadcast_width(operands_wires(qn, args@)).unwrap(),
        Stmt::Measure { qubit, .. } => operand_wires(qn, qubit).unwrap().len() as int,
        Stmt::Reset { target, .. } => operand_wires(qn, target).unwrap().len() as int,
        Stmt::Barrier { .. } => 1,
        Stmt::Delay { .. } => 1,
        _ => 0,
    }
}

/// `op` is the `k`th operation a quantum statement lowers to.
pub open spec fn lowered_op(
    s: Stmt,
    qn: Seq<(Seq<char>, Option<u64>)>,
    bn: Seq<(Seq<char>, Option<u64>)>,
    k: int,
    op: Op,
) -> bool {
    match (s, op) {
        (
            Stmt::GateCall { name, modifiers, params, args, .. },
            Op::Gate { name: n, modifiers: m, params: p, qubits },
        ) => {
            &&& n@ == name@
            &&& qubits@ == broadcast_qubits(operands_wires(qn, args@), k)
            &&& m@.len() == modifiers@.len()
            &&& forall|j: int| 0 <= j < m@.len() ==> lowered_modifier(modifiers@[j], #[trigger] m@[j])
            &&& p@.len() == params@.len()
            &&& forall|j: int| 0 <= j < p@.len() ==> param_text(#[trigger] p@[j]) == param_text_of(params@[j])
        },
        (Stmt::Measure { qubit, target, .. }, Op::Measure { qubit: q, bit }) => {
            &&& q == operand_wires(qn, qubit).unwrap()[k]
            &&& bit == match target {
                Some(t) => Some(operand_wires(bn, t).unwrap()[k]),
                None => None,
            }
        },
        (Stmt::Reset { target, .. }, Op::Reset { qubit }) => qubit == operand_wires(qn, target).unwrap()[k],
        (Stmt::Barrier { targets, .. }, Op::Barrier { qubits }) => qubits@ == flatten(operands_wires(qn, targets@)),
        (Stmt::Delay { duration, targets, .. }, Op::Delay { duration: d, qubits }) => {
            &&& param_text(d) == param_text_of(duration)
            &&& qubits@ == flatten(operands_wires(qn, targets@))
        },
        _ => false,
    }
}

/// `after` is `before` with the operations of a quantum statement appended,
/// live and in order.
pub open spec fn appended_lowered(
    after: Seq<DAGNode>,
    before: Seq<DAGNode>,
    s: Stmt,
    qn: Seq<(Seq<char>, Option<u64>)>,
    bn: Seq<(Seq<char>, Option<u64>)>,
) -> bool {
    &&& after.len() == before.len() + lowered_count(s, qn)
    &&& after.take(before.len() as int) == before
    &&& forall|k: int|
        0 <= k < lowered_count(s, qn) ==> {
            &&& !(#[trigger] after[before.len() + k]).removed
            &&& after[before.len() + k].id == before.len() + k
            &&& lowered_op(s, qn, bn, k, after[before.len() + k].op)
        }
}

/// The edges `e` with each node of `nodes` from `from` up to `to`, in
/// order, threaded onto the wires it acts on.
pub open spec fn threaded(e: Edges, nodes: Seq<DAGNode>, from: int, to: int) -> Edges
    decreases to - from,
{
    if to <= from {
        e
    } else {
        thread_spec(alloc_spec(threaded(e, nodes, from, to - 1)), (to - 1) as usize, op_qubits(nodes[to - 1].op))
    }
}

proof fn lemma_threaded_agree(e: Edges, n1: Seq<DAGNode>, n2: Seq<DAGNode>, from: int, to: int)
    requires
        forall|k: int| from <= k < to ==> n1[k] == n2[k],
    ensures
        threaded(e, n1, from, to) == threaded(e, n2, from, to),
    decreases to - from,
{
    if to > from {
        lemma_threaded_agree(e, n1, n2, from, to - 1);
    }
}

/// Appending one node threads it after the others.
pub proof fn lemma_threaded_append(e0: Edges, d0: CircuitDAG, d1: CircuitDAG, from: int)
    requires
        0 <= from <= d0.len(),
        d0.edges() == threaded(e0, d0.nodes_view(), from, d0.len() as int),
        d1.len() == d0.len() + 1,
        forall|k: int| 0 <= k < d0.len() ==> d1.nodes_view()[k] == d0.nodes_view()[k],
        d1.edges() == thread_spec(alloc_spec(d0.edges()), d0.len() as usize, op_qubits(d1.nodes_view()[d0.len() as int].op)),
    ensures
        d1.edges() == threaded(e0, d1.nodes_view(), from, d1.len() as int),
{
    lemma_threaded_agree(e0, d0.nodes_view(), d1.nodes_view(), from, d0.len() as int);
}

/// The edges of a circuit over `n` wires with no operation: no edges, and
/// each wire's head at its input node `2w`.
pub open spec fn fresh_edges(n: nat) -> Edges {
    (
        Seq::new(2 * n, |i: int| Seq::<(usize, usize)>::empty()),
        Seq::new(2 * n, |i: int| Seq::<(usize, usize)>::empty()),
        Seq::new(n, |w: int| (2 * w) as usize),
    )
}

/// An open region's edges: each operation, in node order, threaded onto
/// its wires after the ones before it.
pub open spec fn region_wired(d: CircuitDAG, n: nat) -> bool {
    d.edges() == threaded(fresh_edges(n), d.nodes_view(), (2 * n) as int, d.len() as int)
}

/// A closed region's edges: those of the open region, with each wire's last
/// operation joined to the wire's output node.
pub open spec fn region_closed(d: CircuitDAG, n: nat) -> bool {
    d.edges() == finalize_spec(threaded(fresh_edges(n), d.nodes_view(), (2 * n) as int, d.len() as int), d.outputs(), d.nq())
}

/// A new circuit, with no edges and each wire's head at its input, has the
/// edges of an empty region.
pub proof fn lemma_new_is_fresh(dag: CircuitDAG)
    requires
        dag.wf(),
        dag.len() == 2 * dag.nq(),
        forall|w: int|
            0 <= w < dag.nq() ==> #[trigger] dag.inputs()[w] == 2 * w && dag.outputs()[w] == 2 * w + 1
                && dag.heads()[w] == 2 * w,
        forall|i: int| 0 <= i < dag.len() ==> (#[trigger] dag.succs(i)).len() == 0 && dag.preds(i).len() == 0,
    ensures
        dag.edges() == fresh_edges(dag.nq()),
{
    let nq = dag.nq();
    dag.lemma_wf_shape();
    assert forall|i: int| 0 <= i < dag.len() implies dag.edges().0[i] == Seq::<(usize, usize)>::empty()
        && dag.edges().1[i] == Seq::<(usize, usize)>::empty() by {
        assert((dag.succs(i)).len() == 0);
        assert(dag.preds(i).len() == 0);
        assert(dag.edges().0[i] =~= Seq::<(usize, usize)>::empty());
        assert(dag.edges().1[i] =~= Seq::<(usize, usize)>::empty());
    }
    assert forall|w: int| 0 <= w < nq implies dag.edges().2[w] == (2 * w) as usize by {
        assert(dag.inputs()[w] == 2 * w);
        assert(dag.heads()[w] == 2 * w);
    }
    assert(dag.edges().0 =~= fresh_edges(nq).0);
    assert(dag.edges().1 =~= fresh_edges(nq).1);
    assert(dag.edges().2 =~= fresh_edges(nq).2);
}

proof fn lemma_threaded_concat(e: Edges, n1: Seq<DAGNode>, n2: Seq<DAGNode>, a: int, b: int, c: int)
    requires
        a <= b <= c,
        forall|k: int| a <= k < b ==> n1[k] == n2[k],
    ensures
        threaded(threaded(e, n1, a, b), n2, b, c) == threaded(e, n2, a, c),
    decreases c - b,
{
    if c > b {
        lemma_threaded_concat(e, n1, n2, a, b, c - 1);
    } else {
        lemma_threaded_agree(e, n1, n2, a, b);
    }
}

/// Node `i` acts on wire `w`.
pub open spec fn on_wire(nodes: Seq<DAGNode>, i: int, w: usize) -> bool {
    op_qubits(nodes[i].op).contains(w)
}

/// The last node at or above `from` and below `to` that acts on `w`, or
/// `start` when there is none.
pub open spec fn last_on(nodes: Seq<DAGNode>, w: usize, from: int, to: int, start: usize) -> usize
    decreases to - from,
{
    if to <= from {
        start
    } else if on_wire(nodes, to - 1, w) {
        (to - 1) as usize
    } else {
        last_on(nodes, w, from, to - 1, start)
    }
}

/// The list `s` holds the entry `(j, w)`.
pub open spec fn has_entry(s: Seq<(usize, usize)>, j: int, w: usize) -> bool {
    exists|k: int| 0 <= k < s.len() && #[trigger] s[k] == (j as usize, w)
}

/// Each list of `a` is a prefix of the list at the same place in `b`.
pub open spec fn lists_grow(a: Seq<Seq<(usize, usize)>>, b: Seq<Seq<(usize, usize)>>) -> bool {
    &&& a.len() <= b.len()
    &&& forall|u: int, k: int| 0 <= u < a.len() && 0 <= k < a[u].len() ==> #[trigger] kept_at(a, b, u, k)
}

/// Entry `k` of list `u` of `a` is also entry `k` of list `u` of `b`.
pub open spec fn kept_at(a: Seq<Seq<(usize, usize)>>, b: Seq<Seq<(usize, usize)>>, u: int, k: int) -> bool {
    k < b[u].len() && b[u][k] == a[u][k]
}

proof fn lemma_grow_entry(a: Seq<Seq<(usize, usize)>>, b: Seq<Seq<(usize, usize)>>, u: int, j: int, w: usize)
    requires
        lists_grow(a, b),
        0 <= u < a.len(),
        has_entry(a[u], j, w),
    ensures
        has_entry(b[u], j, w),
{
    let k = choose|k: int| 0 <= k < a[u].len() && #[trigger] a[u][k] == (j as usize, w);
    assert(kept_at(a, b, u, k));
}

proof fn lemma_grow_at(a: Seq<Seq<(usize, usize)>>, b: Seq<Seq<(usize, usize)>>, u: int, k: int)
    requires
        lists_grow(a, b),
        0 <= u < a.len(),
        0 <= k < a[u].len(),
    ensures
        u < b.len(),
        k < b[u].len(),
        b[u][k] == a[u][k],
{
    assert(kept_at(a, b, u, k));
}

proof fn lemma_grow_trans(a: Seq<Seq<(usize, usize)>>, b: Seq<Seq<(usize, usize)>>, c: Seq<Seq<(usize, usize)>>)
    requires
        lists_grow(a, b),
        lists_grow(b, c),
    ensures
        lists_grow(a, c),
{
    assert forall|u: int, k: int| 0 <= u < a.len() && 0 <= k < a[u].len() implies #[trigger] kept_at(a, c, u, k) by {
        lemma_grow_at(a, b, u, k);
        lemma_grow_at(b, c, u, k);
    }
}

proof fn lemma_grow_push(a: Seq<Seq<(usize, usize)>>, h: int, entry: (usize, usize))
    requires
        0 <= h < a.len(),
    ensures
        lists_grow(a, a.update(h, a[h].push(entry))),
        a.update(h, a[h].push(entry))[h].last() == entry,
{
    let b = a.update(h, a[h].push(entry));
    assert forall|u: int, k: int| 0 <= u < a.len() && 0 <= k < a[u].len() implies #[trigger] kept_at(a, b, u, k) by {
        if u == h {
            assert(b[u] == a[h].push(entry));
        } else {
            assert(b[u] == a[u]);
        }
    }
}

proof fn lemma_grow_same(a: Seq<Seq<(usize, usize)>>, b: Seq<Seq<(usize, usize)>>)
    requires
        a.len() <= b.len(),
        forall|u: int| 0 <= u < a.len() ==> #[trigger] b[u] == a[u],
    ensures
        lists_grow(a, b),
{
    assert forall|u: int, k: int| 0 <= u < a.len() && 0 <= k < a[u].len() implies #[trigger] kept_at(a, b, u, k) by {
        assert(b[u] == a[u]);
    }
}

proof fn lemma_last_on(nodes: Seq<DAGNode>, w: usize, from: int, to: int, start: usize, i: int)
    requires
        0 <= from <= i < to <= usize::MAX,
        on_wire(nodes, i, w),
    ensures
        i <= last_on(nodes, w, from, to, start) < to,
        on_wire(nodes, last_on(nodes, w, from, to, start) as int, w),
    decreases to - from,
{
    if !on_wire(nodes, to - 1, w) {
        lemma_last_on(nodes, w, from, to - 1, start, i);
    }
}

proof fn lemma_last_on_below(nodes: Seq<DAGNode>, w: usize, from: int, to: int, start: usize)
    requires
        from <= to <= usize::MAX,
        start < from,
    ensures
        last_on(nodes, w, from, to, start) < to,
    decreases to - from,
{
    if to > from && !on_wire(nodes, to - 1, w) {
        lemma_last_on_below(nodes, w, from, to - 1, start);
    }
}

/// Threading node `id` onto the wires `ws`: lists only grow, each named
/// wire's head moves to `id`, and each named wire's old head gains the entry
/// `(id, w)`.
proof fn lemma_thread_edges(e: Edges, id: usize, ws: Seq<usize>)
    requires
        id < e.0.len(),
        forall|k: int| 0 <= k < ws.len() ==> (#[trigger] ws[k] as int) < e.2.len(),
        forall|x: int| 0 <= x < e.2.len() ==> (#[trigger] e.2[x] as int) < id,
    ensures
        ({
            let t = thread_spec(e, id, ws);
            &&& lists_grow(e.0, t.0)
            &&& t.0.len() == e.0.len()
            &&& t.2.len() == e.2.len()
            &&& forall|x: usize|
                x < e.2.len() ==> #[trigger] t.2[x as int] == (if ws.contains(x) {
                    id
                } else {
                    e.2[x as int]
                })
            &&& forall|x: usize|
                x < e.2.len() && ws.contains(x) ==> has_entry(t.0[#[trigger] e.2[x as int] as int], id as int, x)
        }),
    decreases ws.len(),
{
    if ws.len() > 0 {
        let ws1 = ws.drop_last();
        let w = ws.last();
        lemma_thread_edges(e, id, ws1);
        let e1 = thread_spec(e, id, ws1);
        let t = thread_spec(e, id, ws);
        assert forall|v: usize| ws.contains(v) == (ws1.contains(v) || v == w) by {
            if ws.contains(v) {
                let k = choose|k: int| 0 <= k < ws.len() && ws[k] == v;
                if k < ws1.len() {
                    assert(ws1[k] == ws[k]);
                }
            }
            if ws1.contains(v) {
                let k = choose|k: int| 0 <= k < ws1.len() && ws1[k] == v;
                assert(ws[k] == ws1[k]);
            }
            if v == w {
                assert(ws[ws.len() - 1] == w);
            }
        }
        assert((w as int) < e.2.len()) by {
            assert(ws[ws.len() - 1] == w);
        }
        let h = e1.2[w as int];
        if h == id {
            assert(ws1.contains(w));
        } else {
            assert(!ws1.contains(w));
            assert(h == e.2[w as int]);
            let row = e1.0[h as int].push((id, w));
            assert(t.0 == e1.0.update(h as int, row));
            lemma_grow_push(e1.0, h as int, (id, w));
            lemma_grow_trans(e.0, e1.0, t.0);
            assert forall|x: usize| x < e.2.len() && ws.contains(x) implies has_entry(
                t.0[#[trigger] e.2[x as int] as int],
                id as int,
                x,
            ) by {
                if x == w {
                    assert(t.0[h as int][row.len() - 1] == (id, w));
                } else {
                    assert(ws1.contains(x));
                    lemma_grow_entry(e1.0, t.0, e.2[x as int] as int, id as int, x);
                }
            }
        }
    }
}

/// Threading nodes `from..t` onto fresh wire heads: each wire's head is its
/// last node so far, and each node on a wire is an entry of the node before
/// it on that wire.
proof fn lemma_threaded_edges(e: Edges, nodes: Seq<DAGNode>, from: int, t: int, nq: nat)
    requires
        0 <= from <= t <= nodes.len(),
        t <= usize::MAX,
        nq <= usize::MAX,
        e.0.len() == from,
        e.2.len() == nq,
        forall|x: int| 0 <= x < nq ==> (#[trigger] e.2[x] as int) < from,
        forall|i: int, k: int|
            from <= i < t && 0 <= k < op_qubits(nodes[i].op).len() ==> #[trigger] op_qubits(nodes[i].op)[k] < nq,
    ensures
        ({
            let f = threaded(e, nodes, from, t);
            &&& f.0.len() == t
            &&& f.2.len() == nq
            &&& lists_grow(e.0, f.0)
            &&& forall|x: usize| x < nq ==> #[trigger] f.2[x as int] == last_on(nodes, x, from, t, e.2[x as int])
            &&& forall|j: int, x: usize|
                from <= j < t && x < nq && #[trigger] on_wire(nodes, j, x) ==> has_entry(
                    f.0[last_on(nodes, x, from, j, e.2[x as int]) as int],
                    j,
                    x,
                )
        }),
    decreases t - from,
{
    if t > from {
        lemma_threaded_edges(e, nodes, from, t - 1, nq);
        let f0 = threaded(e, nodes, from, t - 1);
        let a = alloc_spec(f0);
        let ws = op_qubits(nodes[t - 1].op);
        let id = (t - 1) as usize;
        assert forall|x: int| 0 <= x < a.2.len() implies (#[trigger] a.2[x] as int) < id by {
            lemma_last_on_below(nodes, x as usize, from, t - 1, e.2[x]);
            assert(f0.2[x as usize as int] == last_on(nodes, x as usize, from, t - 1, e.2[x]));
        }
        assert forall|k: int| 0 <= k < ws.len() implies (#[trigger] ws[k] as int) < a.2.len() by {
            assert(op_qubits(nodes[t - 1].op)[k] < nq);
        }
        lemma_thread_edges(a, id, ws);
        let f = threaded(e, nodes, from, t);
        assert(f == thread_spec(a, id, ws));
        lemma_grow_same(f0.0, a.0);
        lemma_grow_trans(e.0, f0.0, a.0);
        lemma_grow_trans(e.0, a.0, f.0);
        assert forall|x: usize| x < nq implies #[trigger] f.2[x as int] == last_on(
            nodes,
            x,
            from,
            t,
            e.2[x as int],
        ) by {
            assert(on_wire(nodes, t - 1, x) == ws.contains(x));
        }
        assert forall|j: int, x: usize| from <= j < t && x < nq && #[trigger] on_wire(nodes, j, x) implies has_entry(
            f.0[last_on(nodes, x, from, j, e.2[x as int]) as int],
            j,
            x,
        ) by {
            let u = last_on(nodes, x, from, j, e.2[x as int]) as int;
            lemma_last_on_below(nodes, x, from, j, e.2[x as int]);
            if j == t - 1 {
                assert(a.2[x as int] == f0.2[x as int]);
            } else {
                assert(has_entry(f0.0[u], j, x));
                lemma_grow_entry(f0.0, a.0, u, j, x);
                lemma_grow_entry(a.0, f.0, u, j, x);
            }
        }
    }
}

/// Joining wire heads to output nodes only adds entries.
proof fn lemma_finalize_grows(e: Edges, outs: Seq<usize>, k: nat)
    requires
        k <= e.2.len(),
        k <= usize::MAX,
        forall|x: int| 0 <= x < k ==> (#[trigger] e.2[x] as int) < e.0.len(),
    ensures
        lists_grow(e.0, finalize_spec(e, outs, k).0),
        finalize_spec(e, outs, k).0.len() == e.0.len(),
        finalize_spec(e, outs, k).2 == e.2,
    decreases k,
{
    if k > 0 {
        lemma_finalize_grows(e, outs, (k - 1) as nat);
        let e1 = finalize_spec(e, outs, (k - 1) as nat);
        let f = finalize_spec(e, outs, k);
        let w = (k - 1) as int;
        let h = e1.2[w] as int;
        assert(h < e.0.len());
        let o = outs[w];
        lemma_grow_push(e1.0, h, (o, w as usize));
        assert(f.0 == e1.0.update(h, e1.0[h].push((o, w as usize))));
        lemma_grow_trans(e.0, e1.0, f.0);
    }
}

/// A lowered region's edges run, on each wire, from each operation to the
/// next operation on that wire.
proof fn lemma_region_wire_edge(d: CircuitDAG, x: usize, j: int)
    requires
        d.wf(),
        region_closed(d, d.nq()),
        2 * d.nq() <= j < d.len(),
        x < d.nq(),
        on_wire(d.nodes_view(), j, x),
    ensures
        ({
            let p = last_on(d.nodes_view(), x, (2 * d.nq()) as int, j, (2 * x) as usize);
            &&& p < j
            &&& has_edge(&d, p as int, j)
        }),
{
    let n = d.nq();
    let nodes = d.nodes_view();
    let from = (2 * n) as int;
    let e = fresh_edges(n);
    d.lemma_same_frame_refl();
    d.lemma_wf_shape();
    assert forall|i: int, k: int|
        from <= i < d.len() && 0 <= k < op_qubits(nodes[i].op).len() implies #[trigger] op_qubits(nodes[i].op)[k]
        < n by {
        d.lemma_op_wires(i);
    }
    assert forall|y: int| 0 <= y < n implies (#[trigger] e.2[y] as int) < from by {}
    lemma_threaded_edges(e, nodes, from, d.len() as int, n);
    let f = threaded(e, nodes, from, d.len() as int);
    assert(e.2[x as int] == (2 * x) as usize);
    let p = last_on(nodes, x, from, j, (2 * x) as usize);
    lemma_last_on_below(nodes, x, from, j, (2 * x) as usize);
    assert(has_entry(f.0[p as int], j, x));
    assert forall|y: int| 0 <= y < n implies (#[trigger] f.2[y] as int) < f.0.len() by {
        lemma_last_on_below(nodes, y as usize, from, d.len() as int, e.2[y]);
        assert(f.2[y as usize as int] == last_on(nodes, y as usize, from, d.len() as int, e.2[y]));
    }
    lemma_finalize_grows(f, d.outputs(), n);
    assert(d.edges() == finalize_spec(f, d.outputs(), n));
    lemma_grow_entry(f.0, d.edges().0, p as int, j, x);
    let k = choose|k: int| 0 <= k < d.succs(p as int).len() && #[trigger] d.succs(p as int)[k] == (j as usize, x);
    assert(d.succs(p as int)[k].0 == j);
}

/// Along each wire, a lowered region keeps its operations in program order:
/// any order that lists every live node and puts every edge forward, as an
/// emission of the region does, lists an operation after each earlier
/// operation on one of its wires.
pub proof fn law_wire_order(d: CircuitDAG, order: Seq<usize>, x: usize, i: int, j: int)
    requires
        d.wf(),
        region_closed(d, d.nq()),
        forall|v: int| 2 * d.nq() <= v < d.len() ==> #[trigger] d.live(v),
        complete_topological(&d, order),
        x < d.nq(),
        2 * d.nq() <= i < j < d.len(),
        on_wire(d.nodes_view(), i, x),
        on_wire(d.nodes_view(), j, x),
    ensures
        forall|a: int, b: int|
            0 <= a < order.len() && 0 <= b < order.len() && order[a] == i && order[b] == j ==> a < b,
    decreases j - i,
{
    let from = (2 * d.nq()) as int;
    d.lemma_same_frame_refl();
    lemma_region_wire_edge(d, x, j);
    let p = last_on(d.nodes_view(), x, from, j, (2 * x) as usize) as int;
    lemma_last_on(d.nodes_view(), x, from, j, (2 * x) as usize, i);
    assert forall|a: int, b: int|
        0 <= a < order.len() && 0 <= b < order.len() && order[a] == i && order[b] == j implies a < b by {
        if p == i {
            assert(has_edge(&d, order[a] as int, order[b] as int));
        } else {
            law_wire_order(d, order, x, i, p);
            assert(d.live(p));
            assert(order.contains(p as usize));
            let c = choose|c: int| 0 <= c < order.len() && order[c] == p as usize;
            assert(has_edge(&d, order[c] as int, order[b] as int));
        }
    }
}

/// Room for one more node.
fn room(dag: &CircuitDAG) -> (r: Result<(), LowerError>)
    ensures
        r is Ok <==> dag.len() < usize::MAX,
        r matches Err(e) ==> e.message@ == "circuit is too large"@ && dag.len() == usize::MAX,
{
    if dag.node_count() < usize::MAX {
        Ok(())
    } else {
        Err(err(string_of("circuit is too large")))
    }
}

/// A statement that becomes circuit operations.
pub open spec fn is_quantum(s: Stmt) -> bool {
    s is GateCall || s is Measure || s is Reset || s is Barrier || s is Delay
}

fn is_quantum_stmt(s: &Stmt) -> (r: bool)
    ensures
        r == is_quantum(*s),
{
    match s {
        Stmt::GateCall { .. } | Stmt::Measure { .. } | Stmt::Reset { .. } | Stmt::Barrier { .. }
        | Stmt::Delay { .. } => true,
        _ => false,
    }
}

proof fn lemma_first_unresolved_prefix(names: Seq<(Seq<char>, Option<u64>)>, ops: Seq<GateOperand>, j: int)
    requires
        0 <= j <= ops.len(),
        first_unresolved(names, ops.take(j)) is Some,
    ensures
        first_unresolved(names, ops) == first_unresolved(names, ops.take(j)),
    decreases ops.len() - j,
{
    if j == ops.len() {
        assert(ops.take(j) =~= ops);
    } else {
        assert(ops.take(j + 1).drop_last() =~= ops.take(j));
        lemma_first_unresolved_prefix(names, ops, j + 1);
    }
}

/// One operand more: it resolves, or it is the first that does not.
proof fn lemma_first_unresolved_step(names: Seq<(Seq<char>, Option<u64>)>, ops: Seq<GateOperand>, i: int)
    requires
        0 <= i < ops.len(),
        first_unresolved(names, ops.take(i)) is None,
    ensures
        operand_wires(names, ops[i]) is Some ==> first_unresolved(names, ops.take(i + 1)) is None,
        operand_wires(names, ops[i]) is None ==> first_unresolved(names, ops) == Some(ops[i]),
{
    assert(ops.take(i + 1).drop_last() =~= ops.take(i));
    assert(ops.take(i + 1).last() == ops[i]);
    if operand_wires(names, ops[i]) is None {
        lemma_first_unresolved_prefix(names, ops, i + 1);
    }
}

proof fn lemma_all_resolved(names: Seq<(Seq<char>, Option<u64>)>, ops: Seq<GateOperand>)
    requires
        first_unresolved(names, ops) is None,
    ensures
        forall|k: int| 0 <= k < ops.len() ==> #[trigger] operand_wires(names, ops[k]) is Some,
    decreases ops.len(),
{
    if ops.len() > 0 {
        lemma_all_resolved(names, ops.drop_last());
        assert forall|k: int| 0 <= k < ops.len() implies #[trigger] operand_wires(names, ops[k]) is Some by {
            if k < ops.len() - 1 {
                assert(ops.drop_last()[k] == ops[k]);
            }
        }
    }
}

proof fn lemma_width_prefix(ws: Seq<Seq<usize>>, j: int)
    requires
        0 <= j <= ws.len(),
        broadcast_width(ws.take(j)) is None,
    ensures
        broadcast_width(ws) is None,
    decreases ws.len() - j,
{
    if j == ws.len() {
        assert(ws.take(j) =~= ws);
    } else {
        assert(ws.take(j + 1).drop_last() =~= ws.take(j));
        lemma_width_prefix(ws, j + 1);
    }
}

/// All wires of a list of operands, in order.
fn concat_wires(wires: &WireMap, ops: &Vec<GateOperand>) -> (r: Result<Vec<usize>, LowerError>)
    ensures
        r matches Ok(ws) ==> forall|k: int| 0 <= k < ws@.len() ==> #[trigger] ws@[k] < wires.qubit_names@.len(),
        match first_unresolved(wires.qubits(), ops@) {
            Some(o) => r matches Err(e) && e.message@ == unresolved("qubit"@, o),
            None => r matches Ok(v) && v@ == flatten(operands_wires(wires.qubits(), ops@)),
        },
{
    let ghost qn = wires.qubits();
    let ghost all = operands_wires(qn, ops@);
    let mut out: Vec<usize> = Vec::new();
    let mut i: usize = 0;
    assert(out@ =~= flatten(all.take(0)));
    assert(ops@.take(0) =~= Seq::<GateOperand>::empty());
    while i < ops.len()
        invariant
            i <= ops@.len(),
            qn == wires.qubits(),
            all == operands_wires(qn, ops@),
            first_unresolved(qn, ops@.take(i as int)) is None,
            out@ == flatten(all.take(i as int)),
            forall|k: int| 0 <= k < out@.len() ==> #[trigger] out@[k] < wires.qubit_names@.len(),
        decreases ops@.len() - i,
    {
        proof {
            lemma_first_unresolved_step(qn, ops@, i as int);
        }
        let ws = wires.resolve_qubit_operand(&ops[i])?;
        let ghost before = out@;
        let mut j: usize = 0;
        while j < ws.len()
            invariant
                j <= ws@.len(),
                out@ == before + ws@.take(j as int),
                forall|k: int| 0 <= k < ws@.len() ==> #[trigger] ws@[k] < wires.qubit_names@.len(),
                forall|k: int| 0 <= k < out@.len() ==> #[trigger] out@[k] < wires.qubit_names@.len(),
            decreases ws@.len() - j,
        {
            out.push(ws[j]);
            assert(ws@.take(j + 1) =~= ws@.take(j as int).push(ws@[j as int]));
            j += 1;
        }
        proof {
            assert(ws@.take(ws@.len() as int) =~= ws@);
            assert(all.take(i + 1).drop_last() =~= all.take(i as int));
            assert(all.take(i + 1).last() == all[i as int]);
            assert(all[i as int] == ws@);
        }
        i += 1;
    }
    proof {
        assert(ops@.take(ops@.len() as int) =~= ops@);
        assert(all.take(ops@.len() as int) =~= all);
    }
    Ok(out)
}

/// The operations of a quantum statement appended after `before`, one at a
/// time: the first `n` are in place.
pub open spec fn appended_prefix(
    after: Seq<DAGNode>,
    before: Seq<DAGNode>,
    s: Stmt,
    qn: Seq<(Seq<char>, Option<u64>)>,
    bn: Seq<(Seq<char>, Option<u64>)>,
    n: int,
) -> bool {
    &&& after.len() == before.len() + n
    &&& after.take(before.len() as int) == before
    &&& forall|k: int|
        0 <= k < n ==> {
            &&& !(#[trigger] after[before.len() + k]).removed
            &&& after[before.len() + k].id == before.len() + k
            &&& lowered_op(s, qn, bn, k, after[before.len() + k].op)
        }
}

proof fn lemma_appended_push(
    after: Seq<DAGNode>,
    before: Seq<DAGNode>,
    s: Stmt,
    qn: Seq<(Seq<char>, Option<u64>)>,
    bn: Seq<(Seq<char>, Option<u64>)>,
    n: int,
    node: DAGNode,
)
    requires
        appended_prefix(after, before, s, qn, bn, n),
        n >= 0,
        !node.removed,
        node.id == before.len() + n,
        lowered_op(s, qn, bn, n, node.op),
    ensures
        appended_prefix(after.push(node), before, s, qn, bn, n + 1),
{
    let a2 = after.push(node);
    assert(a2.take(before.len() as int) =~= after.take(before.len() as int));
    assert forall|k: int| 0 <= k < n + 1 implies {
        &&& !(#[trigger] a2[before.len() + k]).removed
        &&& a2[before.len() + k].id == before.len() + k
        &&& lowered_op(s, qn, bn, k, a2[before.len() + k].op)
    } by {
        if k < n {
            assert(a2[before.len() + k] == after[before.len() + k]);
        }
    }
}

/// Append the operations of one quantum statement; a gate on registers is
/// broadcast over their indices.
#[verifier::rlimit(60)]
fn lower_quantum(stmt: &Stmt, wires: &WireMap, dag: &mut CircuitDAG) -> (r: Result<(), LowerError>)
    requires
        old(dag).wf(),
        old(dag).nq() == wires.qubit_names@.len(),
    ensures
        final(dag).wf(),
        final(dag).nq() == old(dag).nq(),
        final(dag).qubit_names_view() == old(dag).qubit_names_view(),
        final(dag).bit_names_view() == old(dag).bit_names_view(),
        !(*stmt is GateCall) ==> final(dag).live_gates() == old(dag).live_gates(),
        match quantum_failure(*stmt, wires.qubits(), wires.bits()) {
            Some(msg) => r matches Err(e) && e.message@ == msg,
            None => match r {
                Ok(_) => appended_lowered(
                    final(dag).nodes_view(),
                    old(dag).nodes_view(),
                    *stmt,
                    wires.qubits(),
                    wires.bits(),
                ),
                Err(e) => e.message@ == "circuit is too large"@ && old(dag).len() + lowered_count(*stmt, wires.qubits())
                    > usize::MAX,
            },
        },
        r is Ok ==> final(dag).edges() == threaded(
            old(dag).edges(),
            final(dag).nodes_view(),
            old(dag).len() as int,
            final(dag).len() as int,
        ),
{
    let ghost nq = dag.nq();
    let ghost qn = wires.qubits();
    let ghost bn = wires.bits();
    let ghost before = dag.nodes_view();
    proof {
        dag.lemma_same_frame_refl();
    }
    match stmt {
        Stmt::GateCall { name, modifiers, params, args, .. } => {
            let ghost all = operands_wires(qn, args@);
            let ir_params = lower_params(params);
            let ir_mods = lower_modifiers(modifiers);
            let mut operands: Vec<Vec<usize>> = Vec::new();
            let mut i: usize = 0;
            assert(args@.take(0) =~= Seq::<GateOperand>::empty());
            while i < args.len()
                invariant
                    i <= args@.len(),
                    *dag == *old(dag),
                    old(dag).wf(),
                    *stmt matches Stmt::GateCall { args: a0, .. } && a0 == *args,
                    qn == wires.qubits(),
                    all == operands_wires(qn, args@),
                    first_unresolved(qn, args@.take(i as int)) is None,
                    operands@.len() == i,
                    forall|k: int| 0 <= k < i ==> (#[trigger] operands@[k])@ == all[k],
                    forall|k: int| 0 <= k < operands@.len() ==> (#[trigger] operands@[k])@.len() > 0,
                    forall|k: int, j: int|
                        0 <= k < operands@.len() && 0 <= j < operands@[k]@.len() ==> #[trigger] operands@[k]@[j]
                            < wires.qubit_names@.len(),
                decreases args@.len() - i,
            {
                proof {
                    lemma_first_unresolved_step(qn, args@, i as int);
                }
                let ws = match wires.resolve_qubit_operand(&args[i]) {
                    Ok(ws) => ws,
                    Err(e) => {
                        return Err(e);
                    },
                };
                operands.push(ws);
                i += 1;
            }
            proof {
                assert(args@.take(args@.len() as int) =~= args@);
            }
            let ghost ws_all = all;
            assert(forall|k: int| 0 <= k < all.len() ==> (#[trigger] operands@[k])@ == all[k]);
            let mut width: usize = 1;
            let mut k: usize = 0;
            assert(all.take(0) =~= Seq::<Seq<usize>>::empty());
            while k < operands.len()
                invariant
                    k <= operands@.len(),
                    *dag == *old(dag),
                    old(dag).wf(),
                    *stmt matches Stmt::GateCall { args: a0, .. } && a0 == *args,
                    qn == wires.qubits(),
                    all == operands_wires(qn, args@),
                    first_unresolved(qn, args@) is None,
                    operands@.len() == all.len(),
                    forall|m: int| 0 <= m < all.len() ==> (#[trigger] operands@[m])@ == all[m],
                    forall|m: int| 0 <= m < operands@.len() ==> (#[trigger] operands@[m])@.len() > 0,
                    width >= 1,
                    broadcast_width(all.take(k as int)) == Some(width as int),
                    forall|m: int| 0 <= m < k ==> (#[trigger] operands@[m])@.len() == 1 || operands@[m]@.len() == width,
                decreases operands@.len() - k,
            {
                assert(all.take(k + 1).drop_last() =~= all.take(k as int));
                assert(all.take(k + 1).last() == all[k as int]);
                let len = operands[k].len();
                if len > 1 {
                    if width == 1 {
                        width = len;
                    } else if len != width {
                        proof {
                            lemma_width_prefix(all, k + 1);
                        }
                        return Err(
                            err(
                                string_of(
                                    "gate register operands must have the same length for broadcasting",
                                ),
                            ),
                        );
                    }
                }
                k += 1;
            }
            proof {
                assert(all.take(all.len() as int) =~= all);
            }
            let mut idx: usize = 0;
            assert(dag.nodes_view().take(before.len() as int) =~= before);
            while idx < width
                invariant
                    *stmt matches Stmt::GateCall { name: n0, modifiers: m0, params: p0, args: a0, .. } && n0 == *name
                        && m0 == *modifiers && p0 == *params && a0 == *args,
                    idx <= width,
                    dag.wf(),
                    dag.nq() == nq,
                    nq == old(dag).nq(),
                    nq == wires.qubit_names@.len(),
                    dag.qubit_names_view() == old(dag).qubit_names_view(),
                    dag.bit_names_view() == old(dag).bit_names_view(),
                    operands@.len() == all.len(),
                    all == operands_wires(qn, args@),
                    broadcast_width(all) == Some(width as int),
                    forall|m: int| 0 <= m < all.len() ==> (#[trigger] operands@[m])@ == all[m],
                    forall|m: int| 0 <= m < operands@.len() ==> (#[trigger] operands@[m])@.len() > 0,
                    forall|m: int| 0 <= m < operands@.len() ==> (#[trigger] operands@[m])@.len() == 1 || operands@[m]@.len() == width,
                    forall|m: int, j: int|
                        0 <= m < operands@.len() && 0 <= j < operands@[m]@.len() ==> #[trigger] operands@[m]@[j]
                            < wires.qubit_names@.len(),
                    ir_params@.len() == params@.len(),
                    forall|j: int| 0 <= j < params@.len() ==> param_text(#[trigger] ir_params@[j]) == param_text_of(params@[j]),
                    ir_mods@.len() == modifiers@.len(),
                    forall|j: int| 0 <= j < modifiers@.len() ==> lowered_modifier(modifiers@[j], #[trigger] ir_mods@[j]),
                    appended_prefix(dag.nodes_view(), before, *stmt, qn, bn, idx as int),
                    before.len() == old(dag).len(),
                    dag.edges() == threaded(old(dag).edges(), dag.nodes_view(), before.len() as int, dag.len() as int),
                    before == old(dag).nodes_view(),
                    qn == wires.qubits(),
                    bn == wires.bits(),
                    quantum_failure(*stmt, qn, bn) is None,
                    width as int == lowered_count(*stmt, qn),
                decreases width - idx,
            {
                let mut qubits: Vec<usize> = Vec::new();
                let mut m: usize = 0;
                while m < operands.len()
                    invariant
                        m <= operands@.len(),
                        idx < width,
                        operands@.len() == all.len(),
                        forall|t: int| 0 <= t < all.len() ==> (#[trigger] operands@[t])@ == all[t],
                        qubits@ == broadcast_qubits(all, idx as int).take(m as int),
                        forall|q: int| 0 <= q < qubits@.len() ==> #[trigger] qubits@[q] < nq,
                        nq == wires.qubit_names@.len(),
                        forall|t: int| 0 <= t < operands@.len() ==> (#[trigger] operands@[t])@.len() > 0,
                        forall|t: int| 0 <= t < operands@.len() ==> (#[trigger] operands@[t])@.len() == 1 || operands@[t]@.len() == width,
                        forall|t: int, j: int|
                            0 <= t < operands@.len() && 0 <= j < operands@[t]@.len() ==> #[trigger] operands@[t]@[j]
                                < wires.qubit_names@.len(),
                    decreases operands@.len() - m,
                {
                    let w = if operands[m].len() == 1 {
                        operands[m][0]
                    } else {
                        operands[m][idx]
                    };
                    qubits.push(w);
                    assert(qubits@ =~= broadcast_qubits(all, idx as int).take(m + 1));
                    m += 1;
                }
                assert(qubits@ =~= broadcast_qubits(all, idx as int));
                match room(dag) {
                    Ok(()) => {},
                    Err(e) => {
                        return Err(e);
                    },
                }
                let ghost d0 = *dag;
                let n2 = name.clone();
                let mods2 = copy_modifiers(&ir_mods);
                let params2 = copy_params(&ir_params);
                let ghost gop = Op::Gate { name: n2, modifiers: mods2, params: params2, qubits };
                dag.append_gate(n2, mods2, params2, qubits);
                proof {
                    dag.lemma_same_frame_nq(&d0);
                    lemma_threaded_append(old(dag).edges(), d0, *dag, before.len() as int);
                    assert(lowered_op(*stmt, qn, bn, idx as int, gop));
                    lemma_appended_push(
                        d0.nodes_view(),
                        before,
                        *stmt,
                        qn,
                        bn,
                        idx as int,
                        DAGNode { id: d0.len() as usize, op: gop, removed: false },
                    );
                }
                idx += 1;
            }
            Ok(())
        },
        Stmt::Measure { qubit, target, span } => {
            let qubits = match wires.resolve_qubit_operand(qubit) {
                Ok(q) => q,
                Err(e) => {
                    return Err(e);
                },
            };
            let bits: Option<Vec<usize>> = match target {
                Some(t) => {
                    let b = match wires.resolve_bit_operand(t) {
                        Ok(b) => b,
                        Err(e) => {
                            return Err(e);
                        },
                    };
                    if b.len() != qubits.len() {
                        let mut m = string_of("measurement source has ");
                        crate::text::push_usize(&mut m, qubits.len());
                        m.append(" qubit(s), but target has ");
                        crate::text::push_usize(&mut m, b.len());
                        m.append(" bit(s)");
                        assert(m@ =~= measure_mismatch(qubits@.len(), b@.len()));
                        return Err(err(m));
                    }
                    Some(b)
                },
                None => None,
            };
            let mut i: usize = 0;
            assert(dag.nodes_view().take(before.len() as int) =~= before);
            while i < qubits.len()
                invariant
                    i <= qubits@.len(),
                    *stmt matches Stmt::Measure { qubit: q0, target: t0, .. } && qubits@ == operand_wires(qn, q0).unwrap()
                        && match t0 {
                        Some(tt) => bits matches Some(b) && b@ == operand_wires(bn, tt).unwrap(),
                        None => bits is None,
                    },
                    dag.wf(),
                    dag.nq() == nq,
                    nq == old(dag).nq(),
                    dag.qubit_names_view() == old(dag).qubit_names_view(),
                    dag.bit_names_view() == old(dag).bit_names_view(),
                    dag.live_gates() == old(dag).live_gates(),
                    forall|k: int| 0 <= k < qubits@.len() ==> #[trigger] qubits@[k] < nq,
                    bits matches Some(b) ==> b@.len() == qubits@.len(),
                    appended_prefix(dag.nodes_view(), before, *stmt, qn, bn, i as int),
                    before.len() == old(dag).len(),
                    dag.edges() == threaded(old(dag).edges(), dag.nodes_view(), before.len() as int, dag.len() as int),
                    before == old(dag).nodes_view(),
                    qn == wires.qubits(),
                    bn == wires.bits(),
                    quantum_failure(*stmt, qn, bn) is None,
                    qubits@.len() == lowered_count(*stmt, qn),
                decreases qubits@.len() - i,
            {
                let bit = match &bits {
                    Some(b) => Some(b[i]),
                    None => None,
                };
                match room(dag) {
                    Ok(()) => {},
                    Err(e) => {
                        return Err(e);
                    },
                }
                let ghost d0 = *dag;
                let ghost mop = Op::Measure { qubit: qubits[i as int], bit };
                dag.append_measure(qubits[i], bit);
                proof {
                    dag.lemma_same_frame_nq(&d0);
                    lemma_threaded_append(old(dag).edges(), d0, *dag, before.len() as int);
                    assert(lowered_op(*stmt, qn, bn, i as int, mop));
                    lemma_appended_push(
                        d0.nodes_view(),
                        before,
                        *stmt,
                        qn,
                        bn,
                        i as int,
                        DAGNode { id: d0.len() as usize, op: mop, removed: false },
                    );
                }
                i += 1;
            }
            Ok(())
        },
        Stmt::Reset { target, .. } => {
            let qubits = match wires.resolve_qubit_operand(target) {
                Ok(q) => q,
                Err(e) => {
                    return Err(e);
                },
            };
            let mut i: usize = 0;
            assert(dag.nodes_view().take(before.len() as int) =~= before);
            while i < qubits.len()
                invariant
                    i <= qubits@.len(),
                    *stmt matches Stmt::Reset { target: t0, .. } && qubits@ == operand_wires(qn, t0).unwrap(),
                    dag.wf(),
                    dag.nq() == nq,
                    nq == old(dag).nq(),
                    dag.qubit_names_view() == old(dag).qubit_names_view(),
                    dag.bit_names_view() == old(dag).bit_names_view(),
                    dag.live_gates() == old(dag).live_gates(),
                    forall|k: int| 0 <= k < qubits@.len() ==> #[trigger] qubits@[k] < nq,
                    appended_prefix(dag.nodes_view(), before, *stmt, qn, bn, i as int),
                    before.len() == old(dag).len(),
                    dag.edges() == threaded(old(dag).edges(), dag.nodes_view(), before.len() as int, dag.len() as int),
                    before == old(dag).nodes_view(),
                    qn == wires.qubits(),
                    bn == wires.bits(),
                    quantum_failure(*stmt, qn, bn) is None,
                    qubits@.len() == lowered_count(*stmt, qn),
                decreases qubits@.len() - i,
            {
                match room(dag) {
                    Ok(()) => {},
                    Err(e) => {
                        return Err(e);
                    },
                }
                let ghost d0 = *dag;
                let ghost rop = Op::Reset { qubit: qubits[i as int] };
                dag.append_reset(qubits[i]);
                proof {
                    dag.lemma_same_frame_nq(&d0);
                    lemma_threaded_append(old(dag).edges(), d0, *dag, before.len() as int);
                    assert(lowered_op(*stmt, qn, bn, i as int, rop));
                    lemma_appended_push(
                        d0.nodes_view(),
                        before,
                        *stmt,
                        qn,
                        bn,
                        i as int,
                        DAGNode { id: d0.len() as usize, op: rop, removed: false },
                    );
                }
                i += 1;
            }
            Ok(())
        },
        Stmt::Barrier { targets, .. } => {
            let qubits = match concat_wires(wires, targets) {
                Ok(q) => q,
                Err(e) => {
                    return Err(e);
                },
            };
            match room(dag) {
                Ok(()) => {},
                Err(e) => {
                    return Err(e);
                },
            }
            let ghost d0 = *dag;
            let ghost bop = Op::Barrier { qubits };
            dag.append_barrier(qubits);
            proof {
                dag.lemma_same_frame_nq(&d0);
                    lemma_threaded_append(old(dag).edges(), d0, *dag, before.len() as int);
                assert(lowered_op(*stmt, qn, bn, 0, bop));
                assert(appended_prefix(d0.nodes_view(), before, *stmt, qn, bn, 0)) by {
                    assert(d0.nodes_view().take(before.len() as int) =~= before);
                }
                lemma_appended_push(
                    d0.nodes_view(),
                    before,
                    *stmt,
                    qn,
                    bn,
                    0,
                    DAGNode { id: d0.len() as usize, op: bop, removed: false },
                );
            }
            Ok(())
        },
        Stmt::Delay { duration, targets, .. } => {
            let qubits = match concat_wires(wires, targets) {
                Ok(q) => q,
                Err(e) => {
                    return Err(e);
                },
            };
            let d = lower_expr(duration);
            match room(dag) {
                Ok(()) => {},
                Err(e) => {
                    return Err(e);
                },
            }
            let ghost d0 = *dag;
            let ghost dop = Op::Delay { duration: d, qubits };
            dag.append_delay(d, qubits);
            proof {
                dag.lemma_same_frame_nq(&d0);
                    lemma_threaded_append(old(dag).edges(), d0, *dag, before.len() as int);
                assert(lowered_op(*stmt, qn, bn, 0, dop));
                assert(appended_prefix(d0.nodes_view(), before, *stmt, qn, bn, 0)) by {
                    assert(d0.nodes_view().take(before.len() as int) =~= before);
                }
                lemma_appended_push(
                    d0.nodes_view(),
                    before,
                    *stmt,
                    qn,
                    bn,
                    0,
                    DAGNode { id: d0.len() as usize, op: dop, removed: false },
                );
            }
            Ok(())
        },
        _ => {
            assert(dag.nodes_view().take(before.len() as int) =~= before);
            Ok(())
        },
    }
}

/// An empty circuit over every declared wire.
fn new_region(wires: &WireMap) -> (r: Result<CircuitDAG, LowerError>)
    ensures
        r matches Ok(d) ==> d.wf() && d.nq() == wires.qubit_names@.len() && d.live_gates() == 0
            && d.qubit_names_view() == wires.qubit_names@ && d.bit_names_view() == wires.bit_names@
            && region_holds(d, seq![], wires.qubits(), wires.bits()) && region_wired(d, wires.qubits().len()),
        r matches Err(e) ==> e.message@ == "too many qubits"@ && wires.qubits().len() >= usize::MAX / 2,
{
    let nq = wires.qubit_names.len();
    assert(wires.qubits().len() == nq);
    if nq >= usize::MAX / 2 {
        return Err(err(string_of("too many qubits")));
    }
    let mut dag = CircuitDAG::new(nq, wires.bit_names.len());
    proof {
        lemma_new_is_fresh(dag);
    }
    dag.set_names(copy_names(&wires.qubit_names), copy_names(&wires.bit_names));
    Ok(dag)
}

/// A top-level statement is `if`, `for` or `while`.
pub open spec fn has_control_flow(stmts: Seq<Stmt>) -> bool {
    exists|i: int| 0 <= i < stmts.len() && (#[trigger] stmts[i] is If || stmts[i] is For || stmts[i] is While)
}

/// The first statement, in order, that keeps the statements from lowering
/// into one circuit, and why: control flow, or a quantum statement whose
/// lowering fails.
pub open spec fn straight_failure(
    stmts: Seq<Stmt>,
    qn: Seq<(Seq<char>, Option<u64>)>,
    bn: Seq<(Seq<char>, Option<u64>)>,
) -> Option<Seq<char>>
    decreases stmts.len(),
{
    if stmts.len() == 0 {
        None
    } else {
        match straight_failure(stmts.drop_last(), qn, bn) {
            Some(m) => Some(m),
            None => if stmts.last() is If || stmts.last() is For || stmts.last() is While {
                Some(control_flow_message())
            } else {
                quantum_failure(stmts.last(), qn, bn)
            },
        }
    }
}

/// The quantum statements, in order.
pub open spec fn quantum_only(stmts: Seq<Stmt>) -> Seq<Stmt>
    decreases stmts.len(),
{
    if stmts.len() == 0 {
        seq![]
    } else if is_quantum(stmts.last()) {
        quantum_only(stmts.drop_last()).push(stmts.last())
    } else {
        quantum_only(stmts.drop_last())
    }
}

proof fn lemma_straight_step(
    stmts: Seq<Stmt>,
    i: int,
    qn: Seq<(Seq<char>, Option<u64>)>,
    bn: Seq<(Seq<char>, Option<u64>)>,
)
    requires
        0 <= i < stmts.len(),
    ensures
        straight_failure(stmts.take(i + 1), qn, bn) == match straight_failure(stmts.take(i), qn, bn) {
            Some(m) => Some(m),
            None => if stmts[i] is If || stmts[i] is For || stmts[i] is While {
                Some(control_flow_message())
            } else {
                quantum_failure(stmts[i], qn, bn)
            },
        },
        quantum_only(stmts.take(i + 1)) == if is_quantum(stmts[i]) {
            quantum_only(stmts.take(i)).push(stmts[i])
        } else {
            quantum_only(stmts.take(i))
        },
{
    assert(stmts.take(i + 1).drop_last() =~= stmts.take(i));
    assert(stmts.take(i + 1).last() == stmts[i]);
}

proof fn lemma_straight_prefix(
    stmts: Seq<Stmt>,
    i: int,
    qn: Seq<(Seq<char>, Option<u64>)>,
    bn: Seq<(Seq<char>, Option<u64>)>,
)
    requires
        0 <= i <= stmts.len(),
        straight_failure(stmts.take(i), qn, bn) is Some,
    ensures
        straight_failure(stmts, qn, bn) == straight_failure(stmts.take(i), qn, bn),
    decreases stmts.len() - i,
{
    if i == stmts.len() {
        assert(stmts.take(i) =~= stmts);
    } else {
        lemma_straight_step(stmts, i, qn, bn);
        lemma_straight_prefix(stmts, i + 1, qn, bn);
    }
}

/// Lower a program without control flow into one circuit: a wire per
/// declared qubit, and the operations of its quantum statements in order.
/// It fails at the first statement, in order, that is control flow or whose
/// lowering fails, with that statement's message; otherwise only at a
/// machine limit.
pub fn lower_straight_line(program: &Program) -> (r: Result<CircuitDAG, LowerError>)
    ensures
        r matches Ok(d) ==> d.wf(),
        has_control_flow(program.statements@) ==> r is Err,
        match straight_failure(
            program.statements@,
            declared(program.statements@, true),
            declared(program.statements@, false),
        ) {
            Some(m) => r matches Err(e) && (e.message@ == m || limit_failure(
                e.message@,
                declared(program.statements@, true),
                declared(program.statements@, false),
                program.statements@,
            )),
            None => match r {
                Ok(d) => region_holds(
                    d,
                    quantum_only(program.statements@),
                    declared(program.statements@, true),
                    declared(program.statements@, false),
                ) && region_closed(d, declared(program.statements@, true).len()),
                Err(e) => limit_failure(
                    e.message@,
                    declared(program.statements@, true),
                    declared(program.statements@, false),
                    program.statements@,
                ),
            },
        },
{
    let wires = WireMap::collect(&program.statements);
    let ghost qn = wires.qubits();
    let ghost bn = wires.bits();
    let ghost stmts = program.statements@;
    let mut dag = match new_region(&wires) {
        Ok(d) => d,
        Err(e) => {
            return Err(e);
        },
    };
    let mut i: usize = 0;
    assert(stmts.take(0) =~= Seq::<Stmt>::empty());
    while i < program.statements.len()
        invariant
            i <= stmts.len(),
            stmts == program.statements@,
            qn == wires.qubits(),
            bn == wires.bits(),
            qn == declared(stmts, true),
            bn == declared(stmts, false),
            dag.wf(),
            dag.nq() == wires.qubit_names@.len(),
            forall|k: int| 0 <= k < i ==> !(#[trigger] program.statements@[k] is If || program.statements@[k] is For
                || program.statements@[k] is While),
            straight_failure(stmts.take(i as int), qn, bn) is None,
            region_holds(dag, quantum_only(stmts.take(i as int)), qn, bn),
            region_wired(dag, qn.len()),
        decreases program.statements@.len() - i,
    {
        proof {
            lemma_straight_step(stmts, i as int, qn, bn);
        }
        match &program.statements[i] {
            Stmt::If { .. } | Stmt::For { .. } | Stmt::While { .. } => {
                let e = err(
                    string_of(
                        "classical control flow is not yet supported in IR lowering — only straight-line quantum circuits can be lowered",
                    ),
                );
                proof {
                    lemma_straight_prefix(stmts, i + 1, qn, bn);
                }
                return Err(e);
            },
            _ => {
                let ghost d0 = dag;
                match lower_quantum(&program.statements[i], &wires, &mut dag) {
                    Ok(()) => {},
                    Err(e) => {
                        proof {
                            if quantum_failure(stmts[i as int], qn, bn) is Some {
                                lemma_straight_prefix(stmts, i + 1, qn, bn);
                            } else {
                                d0.lemma_same_frame_refl();
                                lemma_run_nodes_len(
                                    d0.nodes_view(),
                                    (2 * qn.len()) as int,
                                    quantum_only(stmts.take(i as int)),
                                    qn,
                                    bn,
                                );
                                if is_quantum(stmts[i as int]) {
                                    lemma_straight_within(stmts, i as int, qn, bn);
                                }
                            }
                        }
                        return Err(e);
                    },
                }
                proof {
                    lemma_count_nonneg(stmts[i as int], qn, bn);
                    lemma_threaded_concat(
                        fresh_edges(qn.len()),
                        d0.nodes_view(),
                        dag.nodes_view(),
                        (2 * qn.len()) as int,
                        d0.len() as int,
                        dag.len() as int,
                    );
                    if is_quantum(stmts[i as int]) {
                        lemma_region_push(d0, dag, quantum_only(stmts.take(i as int)), stmts[i as int], qn, bn);
                    } else {
                        assert(dag.nodes_view() =~= d0.nodes_view());
                        lemma_region_same(d0, dag, quantum_only(stmts.take(i as int)), qn, bn);
                    }
                }
            },
        }
        i += 1;
    }
    let ghost d1 = dag;
    dag.finalize();
    proof {
        dag.lemma_same_frame_nq(&d1);
        dag.lemma_same_frame_outputs(&d1);
        assert(stmts.take(i as int) =~= stmts);
        lemma_region_same(d1, dag, quantum_only(stmts), qn, bn);
    }
    Ok(dag)
}

/// Lower a program into a single circuit DAG (see [`lower_straight_line`]).
pub fn lower(program: &Program) -> (r: Result<CircuitDAG, LowerError>)
    ensures
        r matches Ok(d) ==> d.wf(),
        has_control_flow(program.statements@) ==> r is Err,
        match straight_failure(
            program.statements@,
            declared(program.statements@, true),
            declared(program.statements@, false),
        ) {
            Some(m) => r matches Err(e) && (e.message@ == m || limit_failure(
                e.message@,
                declared(program.statements@, true),
                declared(program.statements@, false),
                program.statements@,
            )),
            None => match r {
                Ok(d) => region_holds(
                    d,
                    quantum_only(program.statements@),
                    declared(program.statements@, true),
                    declared(program.statements@, false),
                ) && region_closed(d, declared(program.statements@, true).len()),
                Err(e) => limit_failure(
                    e.message@,
                    declared(program.statements@, true),
                    declared(program.statements@, false),
                    program.statements@,
                ),
            },
        },
{
    lower_straight_line(program)
}

// ── What a block lowers to ──────────────────────────────────

/// Where the run of quantum statements that ends `stmts` starts.
pub open spec fn run_start(stmts: Seq<Stmt>) -> int
    decreases stmts.len(),
{
    if stmts.len() == 0 || !is_quantum(stmts.last()) {
        stmts.len() as int
    } else {
        run_start(stmts.drop_last())
    }
}

/// How many operations a run of quantum statements lowers to.
pub open spec fn run_count(run: Seq<Stmt>, qn: Seq<(Seq<char>, Option<u64>)>) -> int
    decreases run.len(),
{
    if run.len() == 0 {
        0
    } else {
        run_count(run.drop_last(), qn) + lowered_count(run.last(), qn)
    }
}

/// The nodes from `base` on are the operations of the run, in order.
pub open spec fn run_nodes(
    nodes: Seq<DAGNode>,
    base: int,
    run: Seq<Stmt>,
    qn: Seq<(Seq<char>, Option<u64>)>,
    bn: Seq<(Seq<char>, Option<u64>)>,
) -> bool
    decreases run.len(),
{
    if run.len() == 0 {
        nodes.len() == base
    } else {
        let mid = base + run_count(run.drop_last(), qn);
        &&& 0 <= mid <= nodes.len()
        &&& run_nodes(nodes.take(mid), base, run.drop_last(), qn, bn)
        &&& appended_lowered(nodes, nodes.take(mid), run.last(), qn, bn)
    }
}

/// A circuit region over the wires `qn` and bits `bn` that holds the
/// operations of the quantum statements `run`: an input and an output node
/// per wire (`2w` and `2w + 1`), then the operations in order.
pub open spec fn region_holds(
    d: CircuitDAG,
    run: Seq<Stmt>,
    qn: Seq<(Seq<char>, Option<u64>)>,
    bn: Seq<(Seq<char>, Option<u64>)>,
) -> bool {
    &&& d.wf()
    &&& d.nq() == qn.len()
    &&& names_view(d.qubit_names_view()) == qn
    &&& names_view(d.bit_names_view()) == bn
    &&& 2 * qn.len() <= d.len()
    &&& forall|w: int|
        0 <= w < qn.len() ==> (#[trigger] d.nodes_view()[2 * w]).op == (Op::In { wire: w as usize })
            && d.nodes_view()[2 * w + 1].op == (Op::Out { wire: w as usize }) && !d.nodes_view()[2 * w].removed
            && !d.nodes_view()[2 * w + 1].removed
    &&& run_nodes(d.nodes_view(), (2 * qn.len()) as int, run, qn, bn)
}

/// `h` is what the statement `s`, which is not quantum, lowers to: control
/// flow keeps its condition or range and holds its lowered bodies; any
/// other statement is kept.
pub open spec fn lowered_stmt(
    s: Stmt,
    qn: Seq<(Seq<char>, Option<u64>)>,
    bn: Seq<(Seq<char>, Option<u64>)>,
    h: HirStmt,
) -> bool
    decreases s, 1nat,
{
    match s {
        Stmt::If { condition, then_body, else_body, .. } => {
            proof {
                assert(decreases_to!(s => then_body));
                assert(decreases_to!(then_body => then_body@));
            }
            match h {
                HirStmt::If { condition: c, then_body: t, else_body: e } => {
                    &&& expr_model(c) == expr_model(condition)
                    &&& lowered_block(then_body@, qn, bn, t@)
                    &&& match (else_body, e) {
                        (Some(b), Some(eb)) => {
                            proof {
                                assert(decreases_to!(s => else_body));
                                assert(decreases_to!(else_body => b));
                                assert(decreases_to!(b => b@));
                            }
                            lowered_block(b@, qn, bn, eb@)
                        },
                        (None, None) => true,
                        _ => false,
                    }
                },
                _ => false,
            }
        },
        Stmt::For { var_name, var_ty, range, body, .. } => {
            proof {
                assert(decreases_to!(s => body));
                assert(decreases_to!(body => body@));
            }
            match h {
                HirStmt::For { var_name: n, var_ty: t, range: r, body: b } => {
                    &&& n@ == var_name@
                    &&& t == var_ty
                    &&& range_model(r) == range_model(range)
                    &&& lowered_block(body@, qn, bn, b@)
                },
                _ => false,
            }
        },
        Stmt::While { condition, body, .. } => {
            proof {
                assert(decreases_to!(s => body));
                assert(decreases_to!(body => body@));
            }
            match h {
                HirStmt::While { condition: c, body: b } => {
                    &&& expr_model(c) == expr_model(condition)
                    &&& lowered_block(body@, qn, bn, b@)
                },
                _ => false,
            }
        },
        _ => match h {
            HirStmt::Ast(t) => stmt_model(t) == stmt_model(s),
            _ => false,
        },
    }
}

/// `v` is what the statements lower to: each maximal run of quantum
/// statements becomes one circuit region holding their operations in
/// order, and every other statement its own lowered statement.
pub open spec fn lowered_block(
    stmts: Seq<Stmt>,
    qn: Seq<(Seq<char>, Option<u64>)>,
    bn: Seq<(Seq<char>, Option<u64>)>,
    v: Seq<HirStmt>,
) -> bool
    decreases stmts, 0nat,
{
    if stmts.len() == 0 {
        v.len() == 0
    } else {
        proof {
            assert(decreases_to!(stmts => stmts.drop_last()));
            assert(decreases_to!(stmts => stmts[stmts.len() - 1]));
        }
        v.len() > 0 && if is_quantum(stmts.last()) {
            let j = run_start(stmts);
            proof {
                lemma_run_start(stmts);
                assert(decreases_to!(stmts => stmts.take(j)));
            }
            &&& v.last() matches HirStmt::Circuit(d) && region_holds(d, stmts.subrange(j, stmts.len() as int), qn, bn)
                && region_closed(d, qn.len())
            &&& lowered_block(stmts.take(j), qn, bn, v.drop_last())
        } else {
            &&& lowered_stmt(stmts.last(), qn, bn, v.last())
            &&& lowered_block(stmts.drop_last(), qn, bn, v.drop_last())
        }
    }
}

pub proof fn lemma_run_start(stmts: Seq<Stmt>)
    ensures
        0 <= run_start(stmts) <= stmts.len(),
        stmts.len() > 0 && is_quantum(stmts.last()) ==> run_start(stmts) < stmts.len(),
        forall|k: int| run_start(stmts) <= k < stmts.len() ==> is_quantum(#[trigger] stmts[k]),
        run_start(stmts) > 0 ==> !is_quantum(stmts[run_start(stmts) - 1]),
    decreases stmts.len(),
{
    if stmts.len() > 0 && is_quantum(stmts.last()) {
        lemma_run_start(stmts.drop_last());
        assert forall|k: int| run_start(stmts) <= k < stmts.len() implies is_quantum(#[trigger] stmts[k]) by {
            if k < stmts.len() - 1 {
                assert(stmts.drop_last()[k] == stmts[k]);
            }
        }
        if run_start(stmts) > 0 {
            assert(stmts.drop_last()[run_start(stmts) - 1] == stmts[run_start(stmts) - 1]);
        }
    }
}

proof fn lemma_lowered_op_gate(
    s: Stmt,
    qn: Seq<(Seq<char>, Option<u64>)>,
    bn: Seq<(Seq<char>, Option<u64>)>,
    k: int,
    op: Op,
)
    requires
        lowered_op(s, qn, bn, k, op),
    ensures
        (op is Gate) == (s is GateCall),
{
}

/// Two node lists that hold the same run above the same base have the same
/// length and live gates at the same places above the base.
proof fn lemma_run_nodes_gates(
    n1: Seq<DAGNode>,
    n2: Seq<DAGNode>,
    base: int,
    run: Seq<Stmt>,
    qn: Seq<(Seq<char>, Option<u64>)>,
    bn: Seq<(Seq<char>, Option<u64>)>,
)
    requires
        0 <= base,
        run_nodes(n1, base, run, qn, bn),
        run_nodes(n2, base, run, qn, bn),
    ensures
        n1.len() == n2.len(),
        forall|i: int| base <= i < n1.len() ==> crate::ir::is_live_gate(#[trigger] n1[i]) == crate::ir::is_live_gate(n2[i]),
    decreases run.len(),
{
    if run.len() > 0 {
        let mid = base + run_count(run.drop_last(), qn);
        let (b1, b2) = (n1.take(mid), n2.take(mid));
        lemma_run_nodes_gates(b1, b2, base, run.drop_last(), qn, bn);
        assert forall|i: int| base <= i < n1.len() implies crate::ir::is_live_gate(#[trigger] n1[i])
            == crate::ir::is_live_gate(n2[i]) by {
            if i < mid {
                assert(b1[i] == n1[i]);
                assert(b2[i] == n2[i]);
            } else {
                let k = i - mid;
                assert(n1[b1.len() + k] == n1[i]);
                assert(n2[b2.len() + k] == n2[i]);
                lemma_lowered_op_gate(run.last(), qn, bn, k, n1[i].op);
                lemma_lowered_op_gate(run.last(), qn, bn, k, n2[i].op);
            }
        }
    }
}

proof fn lemma_count_gates_agree(n1: Seq<DAGNode>, n2: Seq<DAGNode>)
    requires
        n1.len() == n2.len(),
        forall|i: int| 0 <= i < n1.len() ==> crate::ir::is_live_gate(#[trigger] n1[i]) == crate::ir::is_live_gate(n2[i]),
    ensures
        crate::ir::count_gates(n1) == crate::ir::count_gates(n2),
    decreases n1.len(),
{
    if n1.len() > 0 {
        assert forall|i: int| 0 <= i < n1.drop_last().len() implies crate::ir::is_live_gate(
            #[trigger] n1.drop_last()[i],
        ) == crate::ir::is_live_gate(n2.drop_last()[i]) by {
            assert(n1.drop_last()[i] == n1[i]);
            assert(n2.drop_last()[i] == n2[i]);
        }
        lemma_count_gates_agree(n1.drop_last(), n2.drop_last());
        assert(crate::ir::is_live_gate(n1[n1.len() - 1]) == crate::ir::is_live_gate(n2[n2.len() - 1]));
    }
}

/// Two regions that hold the same run have the same number of live gates.
proof fn lemma_region_gates_unique(
    d1: CircuitDAG,
    d2: CircuitDAG,
    run: Seq<Stmt>,
    qn: Seq<(Seq<char>, Option<u64>)>,
    bn: Seq<(Seq<char>, Option<u64>)>,
)
    requires
        region_holds(d1, run, qn, bn),
        region_holds(d2, run, qn, bn),
    ensures
        d1.live_gates() == d2.live_gates(),
{
    let n = qn.len();
    let (m1, m2) = (d1.nodes_view(), d2.nodes_view());
    lemma_run_nodes_gates(m1, m2, (2 * n) as int, run, qn, bn);
    assert forall|i: int| 0 <= i < m1.len() implies crate::ir::is_live_gate(#[trigger] m1[i]) == crate::ir::is_live_gate(
        m2[i],
    ) by {
        if i < 2 * n {
            let w = i / 2;
            assert(i == 2 * w || i == 2 * w + 1);
            assert(m1[2 * w].op == (Op::In { wire: w as usize }));
            assert(m2[2 * w].op == (Op::In { wire: w as usize }));
        }
    }
    lemma_count_gates_agree(m1, m2);
}

/// Two lowerings of the same statements hold the same number of gates.
pub proof fn lemma_lowered_block_gates(
    stmts: Seq<Stmt>,
    qn: Seq<(Seq<char>, Option<u64>)>,
    bn: Seq<(Seq<char>, Option<u64>)>,
    v1: Seq<HirStmt>,
    v2: Seq<HirStmt>,
)
    requires
        lowered_block(stmts, qn, bn, v1),
        lowered_block(stmts, qn, bn, v2),
    ensures
        crate::hir::stmts_gates(v1) == crate::hir::stmts_gates(v2),
    decreases stmts, 0nat,
{
    if stmts.len() > 0 {
        assert(decreases_to!(stmts => stmts.drop_last()));
        assert(decreases_to!(stmts => stmts[stmts.len() - 1]));
        assert(crate::hir::stmts_gates(v1) == crate::hir::stmts_gates(v1.drop_last()) + crate::hir::stmt_gates(v1.last()));
        assert(crate::hir::stmts_gates(v2) == crate::hir::stmts_gates(v2.drop_last()) + crate::hir::stmt_gates(v2.last()));
        if is_quantum(stmts.last()) {
            let j = run_start(stmts);
            lemma_run_start(stmts);
            assert(decreases_to!(stmts => stmts.take(j)));
            lemma_lowered_block_gates(stmts.take(j), qn, bn, v1.drop_last(), v2.drop_last());
            match (v1.last(), v2.last()) {
                (HirStmt::Circuit(d1), HirStmt::Circuit(d2)) => {
                    lemma_region_gates_unique(d1, d2, stmts.subrange(j, stmts.len() as int), qn, bn);
                },
                _ => {},
            }
        } else {
            lemma_lowered_stmt_gates(stmts.last(), qn, bn, v1.last(), v2.last());
            lemma_lowered_block_gates(stmts.drop_last(), qn, bn, v1.drop_last(), v2.drop_last());
        }
    }
}

proof fn lemma_lowered_stmt_gates(
    s: Stmt,
    qn: Seq<(Seq<char>, Option<u64>)>,
    bn: Seq<(Seq<char>, Option<u64>)>,
    h1: HirStmt,
    h2: HirStmt,
)
    requires
        lowered_stmt(s, qn, bn, h1),
        lowered_stmt(s, qn, bn, h2),
    ensures
        crate::hir::stmt_gates(h1) == crate::hir::stmt_gates(h2),
    decreases s, 1nat,
{
    match s {
        Stmt::If { then_body, else_body, .. } => {
            assert(decreases_to!(s => then_body));
            assert(decreases_to!(then_body => then_body@));
            match (h1, h2) {
                (HirStmt::If { then_body: t1, else_body: e1, .. }, HirStmt::If { then_body: t2, else_body: e2, .. }) => {
                    lemma_lowered_block_gates(then_body@, qn, bn, t1@, t2@);
                    match (else_body, e1, e2) {
                        (Some(b), Some(x1), Some(x2)) => {
                            assert(decreases_to!(s => else_body));
                            assert(decreases_to!(else_body => b));
                            assert(decreases_to!(b => b@));
                            lemma_lowered_block_gates(b@, qn, bn, x1@, x2@);
                        },
                        _ => {},
                    }
                },
                _ => {},
            }
        },
        Stmt::For { body, .. } => {
            assert(decreases_to!(s => body));
            assert(decreases_to!(body => body@));
            match (h1, h2) {
                (HirStmt::For { body: b1, .. }, HirStmt::For { body: b2, .. }) => {
                    lemma_lowered_block_gates(body@, qn, bn, b1@, b2@);
                },
                _ => {},
            }
        },
        Stmt::While { body, .. } => {
            assert(decreases_to!(s => body));
            assert(decreases_to!(body => body@));
            match (h1, h2) {
                (HirStmt::While { body: b1, .. }, HirStmt::While { body: b2, .. }) => {
                    lemma_lowered_block_gates(body@, qn, bn, b1@, b2@);
                },
                _ => {},
            }
        },
        _ => {},
    }
}

/// The first statement, in order and through control-flow bodies (the
/// `then` body before the `else` body), whose lowering fails, and why.
pub open spec fn block_failure(
    stmts: Seq<Stmt>,
    qn: Seq<(Seq<char>, Option<u64>)>,
    bn: Seq<(Seq<char>, Option<u64>)>,
) -> Option<Seq<char>>
    decreases stmts, 0nat,
{
    if stmts.len() == 0 {
        None
    } else {
        proof {
            assert(decreases_to!(stmts => stmts.drop_last()));
            assert(decreases_to!(stmts => stmts[stmts.len() - 1]));
        }
        match block_failure(stmts.drop_last(), qn, bn) {
            Some(m) => Some(m),
            None => stmt_failure(stmts.last(), qn, bn),
        }
    }
}

pub open spec fn stmt_failure(
    s: Stmt,
    qn: Seq<(Seq<char>, Option<u64>)>,
    bn: Seq<(Seq<char>, Option<u64>)>,
) -> Option<Seq<char>>
    decreases s, 1nat,
{
    if is_quantum(s) {
        quantum_failure(s, qn, bn)
    } else {
        match s {
            Stmt::If { then_body, else_body, .. } => {
                proof {
                    assert(decreases_to!(s => then_body));
                    assert(decreases_to!(then_body => then_body@));
                }
                match block_failure(then_body@, qn, bn) {
                    Some(m) => Some(m),
                    None => match else_body {
                        Some(b) => {
                            proof {
                                assert(decreases_to!(s => else_body));
                                assert(decreases_to!(else_body => b));
                                assert(decreases_to!(b => b@));
                            }
                            block_failure(b@, qn, bn)
                        },
                        None => None,
                    },
                }
            },
            Stmt::For { body, .. } => {
                proof {
                    assert(decreases_to!(s => body));
                    assert(decreases_to!(body => body@));
                }
                block_failure(body@, qn, bn)
            },
            Stmt::While { body, .. } => {
                proof {
                    assert(decreases_to!(s => body));
                    assert(decreases_to!(body => body@));
                }
                block_failure(body@, qn, bn)
            },
            _ => None,
        }
    }
}

/// How many operations the quantum statements of `stmts` lower to, through
/// control-flow bodies, counting each statement that lowers.
pub open spec fn ops_needed(
    stmts: Seq<Stmt>,
    qn: Seq<(Seq<char>, Option<u64>)>,
    bn: Seq<(Seq<char>, Option<u64>)>,
) -> nat
    decreases stmts, 0nat,
{
    if stmts.len() == 0 {
        0
    } else {
        proof {
            assert(decreases_to!(stmts => stmts.drop_last()));
            assert(decreases_to!(stmts => stmts[stmts.len() - 1]));
        }
        ops_needed(stmts.drop_last(), qn, bn) + stmt_ops_needed(stmts.last(), qn, bn)
    }
}

pub open spec fn stmt_ops_needed(
    s: Stmt,
    qn: Seq<(Seq<char>, Option<u64>)>,
    bn: Seq<(Seq<char>, Option<u64>)>,
) -> nat
    decreases s, 1nat,
{
    if is_quantum(s) {
        if quantum_failure(s, qn, bn) is None && lowered_count(s, qn) >= 0 {
            lowered_count(s, qn) as nat
        } else {
            0
        }
    } else {
        match s {
            Stmt::If { then_body, else_body, .. } => {
                proof {
                    assert(decreases_to!(s => then_body));
                    assert(decreases_to!(then_body => then_body@));
                }
                ops_needed(then_body@, qn, bn) + match else_body {
                    Some(b) => {
                        proof {
                            assert(decreases_to!(s => else_body));
                            assert(decreases_to!(else_body => b));
                            assert(decreases_to!(b => b@));
                        }
                        ops_needed(b@, qn, bn)
                    },
                    None => 0,
                }
            },
            Stmt::For { body, .. } => {
                proof {
                    assert(decreases_to!(s => body));
                    assert(decreases_to!(body => body@));
                }
                ops_needed(body@, qn, bn)
            },
            Stmt::While { body, .. } => {
                proof {
                    assert(decreases_to!(s => body));
                    assert(decreases_to!(body => body@));
                }
                ops_needed(body@, qn, bn)
            },
            _ => 0,
        }
    }
}

/// A failure from a machine limit in lowering `stmts`: a circuit region
/// reaching the largest `usize` of nodes, which needs the input and output
/// nodes of every wire and the operations of all statements to pass it; or
/// more qubits than a circuit can hold.
pub open spec fn limit_failure(
    msg: Seq<char>,
    qn: Seq<(Seq<char>, Option<u64>)>,
    bn: Seq<(Seq<char>, Option<u64>)>,
    stmts: Seq<Stmt>,
) -> bool {
    ||| msg == "circuit is too large"@ && 2 * qn.len() + ops_needed(stmts, qn, bn) > usize::MAX
    ||| msg == "too many qubits"@ && qn.len() >= usize::MAX / 2
}

proof fn lemma_needed_concat(
    a: Seq<Stmt>,
    b: Seq<Stmt>,
    qn: Seq<(Seq<char>, Option<u64>)>,
    bn: Seq<(Seq<char>, Option<u64>)>,
)
    ensures
        ops_needed(a + b, qn, bn) == ops_needed(a, qn, bn) + ops_needed(b, qn, bn),
    decreases b.len(),
{
    if b.len() == 0 {
        assert(a + b =~= a);
    } else {
        lemma_needed_concat(a, b.drop_last(), qn, bn);
        assert((a + b).drop_last() =~= a + b.drop_last());
        assert((a + b).last() == b.last());
    }
}

/// A part of a statement list needs no more operations than the whole.
proof fn lemma_needed_range(
    s: Seq<Stmt>,
    i: int,
    k: int,
    qn: Seq<(Seq<char>, Option<u64>)>,
    bn: Seq<(Seq<char>, Option<u64>)>,
)
    requires
        0 <= i <= k <= s.len(),
    ensures
        ops_needed(s.subrange(i, k), qn, bn) <= ops_needed(s, qn, bn),
{
    lemma_needed_concat(s.take(i), s.subrange(i, k), qn, bn);
    lemma_needed_concat(s.take(i) + s.subrange(i, k), s.subrange(k, s.len() as int), qn, bn);
    assert(s.take(i) + s.subrange(i, k) + s.subrange(k, s.len() as int) =~= s);
}

/// One statement needs no more operations than its list.
proof fn lemma_needed_elem(
    s: Seq<Stmt>,
    i: int,
    qn: Seq<(Seq<char>, Option<u64>)>,
    bn: Seq<(Seq<char>, Option<u64>)>,
)
    requires
        0 <= i < s.len(),
    ensures
        stmt_ops_needed(s[i], qn, bn) <= ops_needed(s, qn, bn),
{
    lemma_needed_range(s, i, i + 1, qn, bn);
    let t = s.subrange(i, i + 1);
    assert(t.drop_last() =~= Seq::<Stmt>::empty());
    assert(t.last() == s[i]);
}

/// A limit failure in a control-flow body of statement `i` is one of the
/// whole list.
proof fn lemma_limit_lift(
    s: Seq<Stmt>,
    i: int,
    body: Seq<Stmt>,
    msg: Seq<char>,
    qn: Seq<(Seq<char>, Option<u64>)>,
    bn: Seq<(Seq<char>, Option<u64>)>,
)
    requires
        0 <= i < s.len(),
        ops_needed(body, qn, bn) <= stmt_ops_needed(s[i], qn, bn),
        limit_failure(msg, qn, bn, body),
    ensures
        limit_failure(msg, qn, bn, s),
{
    lemma_needed_elem(s, i, qn, bn);
}

/// With no failure in a list, no statement of it fails.
proof fn lemma_failure_none_elem(
    s: Seq<Stmt>,
    k: int,
    qn: Seq<(Seq<char>, Option<u64>)>,
    bn: Seq<(Seq<char>, Option<u64>)>,
)
    requires
        0 <= k < s.len(),
        block_failure(s, qn, bn) is None,
    ensures
        stmt_failure(s[k], qn, bn) is None,
    decreases s.len(),
{
    if k < s.len() - 1 {
        lemma_failure_none_elem(s.drop_last(), k, qn, bn);
        assert(s.drop_last()[k] == s[k]);
    }
}

/// A run of quantum statements that lower needs as many operations as the
/// run's nodes.
proof fn lemma_run_needed(
    s: Seq<Stmt>,
    qn: Seq<(Seq<char>, Option<u64>)>,
    bn: Seq<(Seq<char>, Option<u64>)>,
)
    requires
        forall|k: int| 0 <= k < s.len() ==> is_quantum(#[trigger] s[k]) && quantum_failure(s[k], qn, bn) is None,
    ensures
        ops_needed(s, qn, bn) == run_count(s, qn),
    decreases s.len(),
{
    if s.len() > 0 {
        assert forall|k: int| 0 <= k < s.drop_last().len() implies is_quantum(#[trigger] s.drop_last()[k])
            && quantum_failure(s.drop_last()[k], qn, bn) is None by {
            assert(s.drop_last()[k] == s[k]);
        }
        lemma_run_needed(s.drop_last(), qn, bn);
        assert(is_quantum(s[s.len() - 1]));
        lemma_count_nonneg(s.last(), qn, bn);
        assert(stmt_ops_needed(s.last(), qn, bn) == lowered_count(s.last(), qn));
        assert(ops_needed(s, qn, bn) == ops_needed(s.drop_last(), qn, bn) + stmt_ops_needed(s.last(), qn, bn));
        assert(run_count(s, qn) == run_count(s.drop_last(), qn) + lowered_count(s.last(), qn));
    }
}

/// The open region of a block, holding the run `j..i`, together with the
/// operations of statement `i`, needs no more operations than the block.
proof fn lemma_region_within(
    s: Seq<Stmt>,
    j: int,
    i: int,
    qn: Seq<(Seq<char>, Option<u64>)>,
    bn: Seq<(Seq<char>, Option<u64>)>,
)
    requires
        0 <= j <= i < s.len(),
        block_failure(s.take(i), qn, bn) is None,
        forall|k: int| j <= k <= i ==> is_quantum(#[trigger] s[k]),
        quantum_failure(s[i], qn, bn) is None,
    ensures
        run_count(s.subrange(j, i), qn) + lowered_count(s[i], qn) <= ops_needed(s, qn, bn),
{
    let run = s.subrange(j, i + 1);
    assert forall|k: int| 0 <= k < run.len() implies is_quantum(#[trigger] run[k]) && quantum_failure(
        run[k],
        qn,
        bn,
    ) is None by {
        assert(run[k] == s[j + k]);
        if j + k < i {
            lemma_failure_none_elem(s.take(i), j + k, qn, bn);
            assert(s.take(i)[j + k] == s[j + k]);
        }
    }
    lemma_run_needed(run, qn, bn);
    assert(run.drop_last() =~= s.subrange(j, i));
    assert(run.last() == s[i]);
    lemma_needed_range(s, j, i + 1, qn, bn);
}

/// The straight-line region so far, together with the operations of
/// statement `i`, needs no more operations than the program.
proof fn lemma_straight_within(
    s: Seq<Stmt>,
    i: int,
    qn: Seq<(Seq<char>, Option<u64>)>,
    bn: Seq<(Seq<char>, Option<u64>)>,
)
    requires
        0 <= i < s.len(),
        straight_failure(s.take(i), qn, bn) is None,
        is_quantum(s[i]),
        quantum_failure(s[i], qn, bn) is None,
    ensures
        run_count(quantum_only(s.take(i)), qn) + lowered_count(s[i], qn) <= ops_needed(s, qn, bn),
{
    lemma_straight_needed(s.take(i), qn, bn);
    lemma_count_nonneg(s[i], qn, bn);
    let t = s.take(i + 1);
    assert(t.drop_last() =~= s.take(i));
    assert(t.last() == s[i]);
    assert(ops_needed(t, qn, bn) == ops_needed(s.take(i), qn, bn) + stmt_ops_needed(s[i], qn, bn));
    lemma_needed_range(s, 0, i + 1, qn, bn);
    assert(s.subrange(0, i + 1) =~= t);
}

proof fn lemma_straight_needed(
    s: Seq<Stmt>,
    qn: Seq<(Seq<char>, Option<u64>)>,
    bn: Seq<(Seq<char>, Option<u64>)>,
)
    requires
        straight_failure(s, qn, bn) is None,
    ensures
        ops_needed(s, qn, bn) == run_count(quantum_only(s), qn),
    decreases s.len(),
{
    if s.len() > 0 {
        lemma_straight_needed(s.drop_last(), qn, bn);
        assert(ops_needed(s, qn, bn) == ops_needed(s.drop_last(), qn, bn) + stmt_ops_needed(s.last(), qn, bn));
        if is_quantum(s.last()) {
            lemma_count_nonneg(s.last(), qn, bn);
            let q = quantum_only(s);
            assert(q.drop_last() =~= quantum_only(s.drop_last()));
            assert(q.last() == s.last());
            assert(stmt_ops_needed(s.last(), qn, bn) == lowered_count(s.last(), qn));
            assert(run_count(q, qn) == run_count(q.drop_last(), qn) + lowered_count(q.last(), qn));
        } else {
            assert(!(s.last() is If || s.last() is For || s.last() is While));
            assert(stmt_ops_needed(s.last(), qn, bn) == 0);
            assert(quantum_only(s) == quantum_only(s.drop_last()));
        }
    }
}

// ── Lemmas on lowered blocks ────────────────────────────────

proof fn lemma_width_positive(ws: Seq<Seq<usize>>)
    ensures
        broadcast_width(ws) matches Some(w) ==> w >= 1,
    decreases ws.len(),
{
    if ws.len() > 0 {
        lemma_width_positive(ws.drop_last());
    }
}

/// A statement that lowers without failing lowers to no fewer than zero operations.
proof fn lemma_count_nonneg(s: Stmt, qn: Seq<(Seq<char>, Option<u64>)>, bn: Seq<(Seq<char>, Option<u64>)>)
    requires
        quantum_failure(s, qn, bn) is None,
    ensures
        lowered_count(s, qn) >= 0,
{
    if let Stmt::GateCall { args, .. } = s {
        lemma_width_positive(operands_wires(qn, args@));
    }
}

proof fn lemma_run_nodes_len(
    nodes: Seq<DAGNode>,
    base: int,
    run: Seq<Stmt>,
    qn: Seq<(Seq<char>, Option<u64>)>,
    bn: Seq<(Seq<char>, Option<u64>)>,
)
    requires
        run_nodes(nodes, base, run, qn, bn),
    ensures
        nodes.len() == base + run_count(run, qn),
{
}

proof fn lemma_run_nodes_push(
    before: Seq<DAGNode>,
    after: Seq<DAGNode>,
    base: int,
    run: Seq<Stmt>,
    s: Stmt,
    qn: Seq<(Seq<char>, Option<u64>)>,
    bn: Seq<(Seq<char>, Option<u64>)>,
)
    requires
        run_nodes(before, base, run, qn, bn),
        appended_lowered(after, before, s, qn, bn),
        quantum_failure(s, qn, bn) is None,
    ensures
        run_nodes(after, base, run.push(s), qn, bn),
{
    lemma_count_nonneg(s, qn, bn);
    lemma_run_nodes_len(before, base, run, qn, bn);
    let r2 = run.push(s);
    assert(r2.drop_last() =~= run);
    assert(r2.last() == s);
    assert(run_count(r2, qn) == run_count(run, qn) + lowered_count(s, qn));
    assert(after.take(before.len() as int) == before);
}

/// A region keeps holding its run when the operations of one more
/// quantum statement are appended to it.
proof fn lemma_region_push(
    d: CircuitDAG,
    d2: CircuitDAG,
    run: Seq<Stmt>,
    s: Stmt,
    qn: Seq<(Seq<char>, Option<u64>)>,
    bn: Seq<(Seq<char>, Option<u64>)>,
)
    requires
        region_holds(d, run, qn, bn),
        d2.wf(),
        d2.nq() == d.nq(),
        d2.qubit_names_view() == d.qubit_names_view(),
        d2.bit_names_view() == d.bit_names_view(),
        appended_lowered(d2.nodes_view(), d.nodes_view(), s, qn, bn),
        quantum_failure(s, qn, bn) is None,
    ensures
        region_holds(d2, run.push(s), qn, bn),
{
    lemma_run_nodes_push(d.nodes_view(), d2.nodes_view(), (2 * qn.len()) as int, run, s, qn, bn);
    let before = d.nodes_view();
    let after = d2.nodes_view();
    assert forall|w: int| 0 <= w < qn.len() implies (#[trigger] after[2 * w]).op == (Op::In { wire: w as usize })
        && after[2 * w + 1].op == (Op::Out { wire: w as usize }) && !after[2 * w].removed
        && !after[2 * w + 1].removed by {
        assert(after.take(before.len() as int)[2 * w] == after[2 * w]);
        assert(after.take(before.len() as int)[2 * w + 1] == after[2 * w + 1]);
        assert(before[2 * w] == d.nodes_view()[2 * w]);
    }
}

/// A region that finalizing leaves alike holds the same run.
proof fn lemma_region_same(
    d: CircuitDAG,
    f: CircuitDAG,
    run: Seq<Stmt>,
    qn: Seq<(Seq<char>, Option<u64>)>,
    bn: Seq<(Seq<char>, Option<u64>)>,
)
    requires
        region_holds(d, run, qn, bn),
        f.wf(),
        f.nq() == d.nq(),
        f.qubit_names_view() == d.qubit_names_view(),
        f.bit_names_view() == d.bit_names_view(),
        f.nodes_view() == d.nodes_view(),
    ensures
        region_holds(f, run, qn, bn),
{
}

proof fn lemma_run_start_step(stmts: Seq<Stmt>, i: int)
    requires
        0 <= i < stmts.len(),
    ensures
        run_start(stmts.take(i + 1)) == if is_quantum(stmts[i]) {
            run_start(stmts.take(i))
        } else {
            i + 1
        },
{
    assert(stmts.take(i + 1).drop_last() =~= stmts.take(i));
    assert(stmts.take(i + 1).last() == stmts[i]);
}

proof fn lemma_failure_step(
    stmts: Seq<Stmt>,
    i: int,
    qn: Seq<(Seq<char>, Option<u64>)>,
    bn: Seq<(Seq<char>, Option<u64>)>,
)
    requires
        0 <= i < stmts.len(),
    ensures
        block_failure(stmts.take(i + 1), qn, bn) == match block_failure(stmts.take(i), qn, bn) {
            Some(m) => Some(m),
            None => stmt_failure(stmts[i], qn, bn),
        },
{
    assert(stmts.take(i + 1).drop_last() =~= stmts.take(i));
    assert(stmts.take(i + 1).last() == stmts[i]);
}

/// Once a prefix of a block fails, the block fails the same way.
proof fn lemma_failure_prefix(
    stmts: Seq<Stmt>,
    i: int,
    qn: Seq<(Seq<char>, Option<u64>)>,
    bn: Seq<(Seq<char>, Option<u64>)>,
)
    requires
        0 <= i <= stmts.len(),
        block_failure(stmts.take(i), qn, bn) is Some,
    ensures
        block_failure(stmts, qn, bn) == block_failure(stmts.take(i), qn, bn),
    decreases stmts.len() - i,
{
    if i == stmts.len() {
        assert(stmts.take(i) =~= stmts);
    } else {
        lemma_failure_step(stmts, i, qn, bn);
        lemma_failure_prefix(stmts, i + 1, qn, bn);
    }
}

/// The first statement whose lowering fails decides how the block fails.
proof fn lemma_fail_at(
    stmts: Seq<Stmt>,
    i: int,
    qn: Seq<(Seq<char>, Option<u64>)>,
    bn: Seq<(Seq<char>, Option<u64>)>,
)
    requires
        0 <= i < stmts.len(),
        block_failure(stmts.take(i), qn, bn) is None,
        stmt_failure(stmts[i], qn, bn) is Some,
    ensures
        block_failure(stmts, qn, bn) == stmt_failure(stmts[i], qn, bn),
{
    lemma_failure_step(stmts, i, qn, bn);
    lemma_failure_prefix(stmts, i + 1, qn, bn);
}

proof fn lemma_block_close(
    stmts: Seq<Stmt>,
    i: int,
    j: int,
    out: Seq<HirStmt>,
    d: CircuitDAG,
    qn: Seq<(Seq<char>, Option<u64>)>,
    bn: Seq<(Seq<char>, Option<u64>)>,
)
    requires
        0 <= j < i <= stmts.len(),
        run_start(stmts.take(i)) == j,
        lowered_block(stmts.take(j), qn, bn, out),
        region_holds(d, stmts.subrange(j, i), qn, bn),
        region_closed(d, qn.len()),
    ensures
        lowered_block(stmts.take(i), qn, bn, out.push(HirStmt::Circuit(d))),
{
    let t = stmts.take(i);
    let v = out.push(HirStmt::Circuit(d));
    assert(is_quantum(t.last()));
    assert(t.take(j) =~= stmts.take(j));
    assert(t.subrange(j, t.len() as int) =~= stmts.subrange(j, i));
    assert(v.drop_last() =~= out);
}

proof fn lemma_block_stmt(
    stmts: Seq<Stmt>,
    i: int,
    out: Seq<HirStmt>,
    h: HirStmt,
    qn: Seq<(Seq<char>, Option<u64>)>,
    bn: Seq<(Seq<char>, Option<u64>)>,
)
    requires
        0 <= i < stmts.len(),
        !is_quantum(stmts[i]),
        lowered_block(stmts.take(i), qn, bn, out),
        lowered_stmt(stmts[i], qn, bn, h),
    ensures
        lowered_block(stmts.take(i + 1), qn, bn, out.push(h)),
{
    let t = stmts.take(i + 1);
    assert(t.drop_last() =~= stmts.take(i));
    assert(t.last() == stmts[i]);
    assert(out.push(h).drop_last() =~= out);
}

// ── HIR lowering ────────────────────────────────────────────

/// Close the current circuit region, if any, into `out`.
fn flush(out: &mut Vec<HirStmt>, current: &mut Option<CircuitDAG>)
    requires
        hir_stmts_wf(old(out)@),
        *old(current) matches Some(d) ==> d.wf(),
    ensures
        hir_stmts_wf(final(out)@),
        *final(current) is None,
        match *old(current) {
            Some(d) => final(out)@.len() == old(out)@.len() + 1 && final(out)@.drop_last() == old(out)@
                && (final(out)@.last() matches HirStmt::Circuit(f) && f.wf() && f.nq() == d.nq()
                && f.qubit_names_view() == d.qubit_names_view() && f.bit_names_view() == d.bit_names_view()
                && f.nodes_view() == d.nodes_view() && f.outputs() == d.outputs() && f.edges() == finalize_spec(
                d.edges(),
                d.outputs(),
                d.nq(),
            )),
            None => final(out)@ == old(out)@,
        },
{
    let ghost before = out@;
    let taken = current.take();
    match taken {
        Some(mut dag) => {
            let ghost d0 = dag;
            dag.finalize();
            proof {
                dag.lemma_same_frame_nq(&d0);
                dag.lemma_same_frame_outputs(&d0);
            }
            let h = HirStmt::Circuit(dag);
            assert(hir_stmt_wf(h));
            push_wf(out, h);
            assert(out@.drop_last() =~= before);
        },
        None => {},
    }
}

fn push_wf(out: &mut Vec<HirStmt>, s: HirStmt)
    requires
        hir_stmts_wf(old(out)@),
        hir_stmt_wf(s),
    ensures
        hir_stmts_wf(final(out)@),
        final(out)@ == old(out)@.push(s),
{
    let ghost before = out@;
    let ghost g = s;
    out.push(s);
    proof {
        crate::hir::lemma_stmts_wf_push(before, g);
    }
}

/// Lower a statement list: runs of quantum operations become circuit
/// regions; control flow keeps its structure; everything else is kept as is.
#[verifier::loop_isolation(false)]
#[verifier::rlimit(60)]
fn lower_block(stmts: &Vec<Stmt>, wires: &WireMap) -> (r: Result<Vec<HirStmt>, LowerError>)
    ensures
        r matches Ok(v) ==> hir_stmts_wf(v@),
        match block_failure(stmts@, wires.qubits(), wires.bits()) {
            Some(msg) => r matches Err(e) && (e.message@ == msg || limit_failure(e.message@, wires.qubits(), wires.bits(), stmts@)),
            None => match r {
                Ok(v) => lowered_block(stmts@, wires.qubits(), wires.bits(), v@),
                Err(e) => limit_failure(e.message@, wires.qubits(), wires.bits(), stmts@),
            },
        },
    decreases stmts,
{
    let ghost qn = wires.qubits();
    let ghost bn = wires.bits();
    let ghost mut j: int = 0;
    assert(wires.qubits().len() == wires.qubit_names@.len());
    let mut out: Vec<HirStmt> = Vec::new();
    assert(hir_stmts_wf(out@));
    let mut current: Option<CircuitDAG> = None;
    let mut i: usize = 0;
    assert(stmts@.take(0) =~= Seq::<Stmt>::empty());
    while i < stmts.len()
        invariant
            i <= stmts@.len(),
            hir_stmts_wf(out@),
            qn == wires.qubits(),
            bn == wires.bits(),
            qn.len() == wires.qubit_names@.len(),
            block_failure(stmts@.take(i as int), qn, bn) is None,
            current matches Some(d) ==> d.wf() && d.nq() == wires.qubit_names@.len() && 0 <= j < i
                && run_start(stmts@.take(i as int)) == j && lowered_block(stmts@.take(j), qn, bn, out@)
                && region_holds(d, stmts@.subrange(j, i as int), qn, bn) && region_wired(d, qn.len()),
            current is None ==> run_start(stmts@.take(i as int)) == i && lowered_block(
                stmts@.take(i as int),
                qn,
                bn,
                out@,
            ),
        decreases stmts@.len() - i,
    {
        proof {
            assert(decreases_to!(stmts => stmts@));
            assert(decreases_to!(stmts@ => stmts@[i as int]));
            lemma_run_start_step(stmts@, i as int);
            lemma_failure_step(stmts@, i as int, qn, bn);
        }
        let stmt = &stmts[i];
        if is_quantum_stmt(stmt) {
            let mut dag = match current.take() {
                Some(d) => d,
                None => {
                    match new_region(wires) {
                        Ok(d) => {
                            proof {
                                j = i as int;
                                assert(stmts@.subrange(j, i as int) =~= Seq::<Stmt>::empty());
                            }
                            d
                        },
                        Err(e) => {
                            return Err(e);
                        },
                    }
                },
            };
            let ghost d0 = dag;
            match lower_quantum(stmt, wires, &mut dag) {
                Ok(()) => {},
                Err(e) => {
                    proof {
                        if quantum_failure(*stmt, qn, bn) is Some {
                            lemma_fail_at(stmts@, i as int, qn, bn);
                        } else {
                            lemma_run_nodes_len(d0.nodes_view(), (2 * qn.len()) as int, stmts@.subrange(j, i as int), qn, bn);
                            lemma_run_start(stmts@.take(i as int));
                            assert forall|k: int| j <= k <= i implies is_quantum(#[trigger] stmts@[k]) by {
                                if k < i {
                                    assert(stmts@.take(i as int)[k] == stmts@[k]);
                                }
                            }
                            lemma_region_within(stmts@, j, i as int, qn, bn);
                        }
                    }
                    return Err(e);
                },
            }
            proof {
                lemma_region_push(d0, dag, stmts@.subrange(j, i as int), *stmt, qn, bn);
                lemma_threaded_concat(
                    fresh_edges(qn.len()),
                    d0.nodes_view(),
                    dag.nodes_view(),
                    (2 * qn.len()) as int,
                    d0.len() as int,
                    dag.len() as int,
                );
                assert(stmts@.subrange(j, i + 1) =~= stmts@.subrange(j, i as int).push(*stmt));
            }
            current = Some(dag);
        } else {
            let ghost out0 = out@;
            let ghost cur0 = current;
            flush(&mut out, &mut current);
            proof {
                if let Some(d) = cur0 {
                    let f = out@.last()->Circuit_0;
                    lemma_region_same(d, f, stmts@.subrange(j, i as int), qn, bn);
                    assert(region_closed(f, qn.len()));
                    assert(out@ =~= out0.push(HirStmt::Circuit(f)));
                    lemma_block_close(stmts@, i as int, j, out0, f, qn, bn);
                }
            }
            let ghost mid = out@;
            assert(lowered_block(stmts@.take(i as int), qn, bn, mid));
            match stmt {
                Stmt::If { condition, then_body, else_body, .. } => {
                    let t = match lower_block(then_body, wires) {
                        Ok(t) => t,
                        Err(e) => {
                            proof {
                                if block_failure(then_body@, qn, bn) is Some {
                                    lemma_fail_at(stmts@, i as int, qn, bn);
                                }
                                if limit_failure(e.message@, qn, bn, then_body@) {
                                    lemma_limit_lift(stmts@, i as int, then_body@, e.message@, qn, bn);
                                }
                            }
                            return Err(e);
                        },
                    };
                    let e = match else_body {
                        Some(eb) => {
                            let v = match lower_block(eb, wires) {
                                Ok(v) => v,
                                Err(e) => {
                                    proof {
                                        if block_failure(eb@, qn, bn) is Some {
                                            lemma_fail_at(stmts@, i as int, qn, bn);
                                        }
                                        if limit_failure(e.message@, qn, bn, eb@) {
                                            lemma_limit_lift(stmts@, i as int, eb@, e.message@, qn, bn);
                                        }
                                    }
                                    return Err(e);
                                },
                            };
                            Some(v)
                        },
                        None => None,
                    };
                    let h = HirStmt::new_if(condition.clone(), t, e);
                    proof {
                        assert(lowered_stmt(*stmt, qn, bn, h));
                        lemma_block_stmt(stmts@, i as int, mid, h, qn, bn);
                    }
                    push_wf(&mut out, h);
                },
                Stmt::For { var_name, var_ty, range, body, .. } => {
                    let b = match lower_block(body, wires) {
                        Ok(b) => b,
                        Err(e) => {
                            proof {
                                if block_failure(body@, qn, bn) is Some {
                                    lemma_fail_at(stmts@, i as int, qn, bn);
                                }
                                if limit_failure(e.message@, qn, bn, body@) {
                                    lemma_limit_lift(stmts@, i as int, body@, e.message@, qn, bn);
                                }
                            }
                            return Err(e);
                        },
                    };
                    let h = HirStmt::new_for(var_name.clone(), *var_ty, range.clone(), b);
                    proof {
                        assert(lowered_stmt(*stmt, qn, bn, h));
                        lemma_block_stmt(stmts@, i as int, mid, h, qn, bn);
                    }
                    push_wf(&mut out, h);
                },
                Stmt::While { condition, body, .. } => {
                    let b = match lower_block(body, wires) {
                        Ok(b) => b,
                        Err(e) => {
                            proof {
                                if block_failure(body@, qn, bn) is Some {
                                    lemma_fail_at(stmts@, i as int, qn, bn);
                                }
                                if limit_failure(e.message@, qn, bn, body@) {
                                    lemma_limit_lift(stmts@, i as int, body@, e.message@, qn, bn);
                                }
                            }
                            return Err(e);
                        },
                    };
                    let h = HirStmt::new_while(condition.clone(), b);
                    proof {
                        assert(lowered_stmt(*stmt, qn, bn, h));
                        lemma_block_stmt(stmts@, i as int, mid, h, qn, bn);
                    }
                    push_wf(&mut out, h);
                },
                _ => {
                    let h = HirStmt::Ast(clone_stmt(stmt));
                    proof {
                        assert(lowered_stmt(*stmt, qn, bn, h));
                        lemma_block_stmt(stmts@, i as int, mid, h, qn, bn);
                    }
                    push_wf(&mut out, h);
                },
            }
        }
        i += 1;
    }
    let ghost out0 = out@;
    let ghost cur0 = current;
    flush(&mut out, &mut current);
    proof {
        if let Some(d) = cur0 {
            let f = out@.last()->Circuit_0;
            lemma_region_same(d, f, stmts@.subrange(j, i as int), qn, bn);
            assert(region_closed(f, qn.len()));
            assert(out@ =~= out0.push(HirStmt::Circuit(f)));
            lemma_block_close(stmts@, i as int, j, out0, f, qn, bn);
        }
        assert(stmts@.take(i as int) =~= stmts@);
    }
    Ok(out)
}

/// Lower a program to HIR: control flow stays structured and each run of
/// quantum operations becomes a circuit region over all declared wires.
/// Lowering fails at the first statement, in order, that names an unknown
/// wire or whose operands do not broadcast, with that statement's message;
/// otherwise it fails only at a machine limit.
pub fn lower_hir(program: &Program) -> (r: Result<HirProgram, LowerError>)
    ensures
        r matches Ok(h) ==> h.wf() && h.version@ == program.version@,
        match block_failure(
            program.statements@,
            declared(program.statements@, true),
            declared(program.statements@, false),
        ) {
            Some(msg) => r matches Err(e) && (e.message@ == msg || limit_failure(
                e.message@,
                declared(program.statements@, true),
                declared(program.statements@, false),
                program.statements@,
            )),
            None => match r {
                Ok(h) => {
                    &&& h.num_qubits == declared(program.statements@, true).len()
                    &&& h.num_bits == declared(program.statements@, false).len()
                    &&& lowered_block(
                        program.statements@,
                        declared(program.statements@, true),
                        declared(program.statements@, false),
                        h.statements@,
                    )
                },
                Err(e) => limit_failure(
                    e.message@,
                    declared(program.statements@, true),
                    declared(program.statements@, false),
                    program.statements@,
                ),
            },
        },
{
    let wires = WireMap::collect(&program.statements);
    assert(wires.qubits().len() == wires.qubit_names@.len());
    assert(wires.bits().len() == wires.bit_names@.len());
    let statements = lower_block(&program.statements, &wires)?;
    Ok(
        HirProgram {
            version: program.version.clone(),
            statements,
            num_qubits: wires.qubit_names.len(),
            num_bits: wires.bit_names.len(),
        },
    )
}

} // verus!
