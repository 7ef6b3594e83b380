//! High-level intermediate representation.
//!
//! HIR keeps OpenQASM program structure while straight-line quantum regions
//! are circuit DAGs, so classical control flow stays explicit instead of
//! being forced into the circuit graph.

use vstd::prelude::*;

use crate::ast::{ClassicalType, CompareOp, Expr, ForRange, Stmt};
use crate::ast::{classical_type_text};
use crate::codegen::{emit_expr, emit_stmt, expr_text, indent, indent_text, inner_depth, step_text, stmt_text};
use crate::ir::{emission_order, ops_lines};
use crate::consteval::{const_int, eval_int};
use crate::ir::CircuitDAG;

verus! {

/// A circuit depth that is known exactly, or only bounded from below.
#[derive(Debug, Clone, Copy, PartialEq, Eq, Structural)]
pub enum DepthEstimate {
    Exact(usize),
    AtLeast(usize),
}

pub struct HirProgram {
    pub version: String,
    pub statements: Vec<HirStmt>,
    pub num_qubits: usize,
    pub num_bits: usize,
}

pub enum HirStmt {
    Ast(Stmt),
    Circuit(CircuitDAG),
    If { condition: Expr, then_body: Vec<HirStmt>, else_body: Option<Vec<HirStmt>> },
    For { var_name: String, var_ty: ClassicalType, range: ForRange, body: Vec<HirStmt> },
    While { condition: Expr, body: Vec<HirStmt> },
}

/// Every circuit region of the statements is well formed.
pub open spec fn hir_stmts_wf(stmts: Seq<HirStmt>) -> bool
    decreases stmts, 0nat,
{
    if stmts.len() == 0 {
        true
    } else {
        proof {
            assert(decreases_to!(stmts => stmts.drop_last()));
            assert(decreases_to!(stmts => stmts[stmts.len() - 1]));
        }
        hir_stmts_wf(stmts.drop_last()) && hir_stmt_wf(stmts.last())
    }
}

/// Every circuit region in the statement is well formed.
pub open spec fn hir_stmt_wf(s: HirStmt) -> bool
    decreases s, 1nat,
{
    match s {
        HirStmt::Ast(_) => true,
        HirStmt::Circuit(dag) => dag.wf(),
        HirStmt::If { then_body, else_body, .. } => {
            proof {
                assert(decreases_to!(s => then_body));
                assert(decreases_to!(then_body => then_body@));
            }
            &&& hir_stmts_wf(then_body@)
            &&& match else_body {
                Some(e) => {
                    proof {
                        assert(decreases_to!(s => else_body));
                        assert(decreases_to!(else_body => e));
                        assert(decreases_to!(e => e@));
                    }
                    hir_stmts_wf(e@)
                },
                None => true,
            }
        },
        HirStmt::For { body, .. } => {
            proof {
                assert(decreases_to!(s => body));
                assert(decreases_to!(body => body@));
            }
            hir_stmts_wf(body@)
        },
        HirStmt::While { body, .. } => {
            proof {
                assert(decreases_to!(s => body));
                assert(decreases_to!(body => body@));
            }
            hir_stmts_wf(body@)
        },
    }
}

/// Each statement of a well-formed list is well formed.
pub proof fn lemma_stmts_wf_index(v: Seq<HirStmt>, i: int)
    requires
        hir_stmts_wf(v),
        0 <= i < v.len(),
    ensures
        hir_stmt_wf(v[i]),
    decreases v.len(),
{
    if i < v.len() - 1 {
        assert(v.drop_last()[i] == v[i]);
        lemma_stmts_wf_index(v.drop_last(), i);
    }
}

/// Appending a well-formed statement keeps a list well formed.
pub proof fn lemma_stmts_wf_push(v: Seq<HirStmt>, x: HirStmt)
    requires
        hir_stmts_wf(v),
        hir_stmt_wf(x),
    ensures
        hir_stmts_wf(v.push(x)),
{
    assert(v.push(x).drop_last() =~= v);
}

impl HirProgram {
    /// Every circuit region is well formed.
    pub open spec fn wf(&self) -> bool {
        hir_stmts_wf(self.statements@)
    }
}

impl HirStmt {
    /// A conditional over well-formed bodies.
    pub fn new_if(condition: Expr, then_body: Vec<HirStmt>, else_body: Option<Vec<HirStmt>>) -> (r: HirStmt)
        requires
            hir_stmts_wf(then_body@),
            else_body matches Some(e) ==> hir_stmts_wf(e@),
        ensures
            hir_stmt_wf(r),
            r == (HirStmt::If { condition, then_body, else_body }),
    {
        HirStmt::If { condition, then_body, else_body }
    }

    /// A `for` loop over a well-formed body.
    pub fn new_for(var_name: String, var_ty: ClassicalType, range: ForRange, body: Vec<HirStmt>) -> (r: HirStmt)
        requires
            hir_stmts_wf(body@),
        ensures
            hir_stmt_wf(r),
            r == (HirStmt::For { var_name, var_ty, range, body }),
    {
        HirStmt::For { var_name, var_ty, range, body }
    }

    /// A `while` loop over a well-formed body.
    pub fn new_while(condition: Expr, body: Vec<HirStmt>) -> (r: HirStmt)
        requires
            hir_stmts_wf(body@),
        ensures
            hir_stmt_wf(r),
            r == (HirStmt::While { condition, body }),
    {
        HirStmt::While { condition, body }
    }
}

// ── Depth estimates ─────────────────────────────────────────

pub open spec fn sat_add(a: int, b: int) -> int {
    if a + b > usize::MAX {
        usize::MAX as int
    } else {
        a + b
    }
}

pub open spec fn sat_mul(a: int, b: int) -> int {
    if a * b > usize::MAX {
        usize::MAX as int
    } else {
        a * b
    }
}

pub open spec fn max_int(a: int, b: int) -> int {
    if a >= b {
        a
    } else {
        b
    }
}

pub open spec fn lb(d: DepthEstimate) -> int {
    match d {
        DepthEstimate::Exact(n) => n as int,
        DepthEstimate::AtLeast(n) => n as int,
    }
}

/// Sequential composition: exact only when both parts are exact.
pub open spec fn add_spec(a: DepthEstimate, b: DepthEstimate) -> DepthEstimate {
    match (a, b) {
        (DepthEstimate::Exact(x), DepthEstimate::Exact(y)) => DepthEstimate::Exact(sat_add(x as int, y as int) as usize),
        _ => DepthEstimate::AtLeast(sat_add(lb(a), lb(b)) as usize),
    }
}

/// `count` repetitions.
pub open spec fn repeat_spec(a: DepthEstimate, count: usize) -> DepthEstimate {
    match a {
        DepthEstimate::Exact(n) => DepthEstimate::Exact(sat_mul(n as int, count as int) as usize),
        DepthEstimate::AtLeast(n) => DepthEstimate::AtLeast(sat_mul(n as int, count as int) as usize),
    }
}

/// Either of two branches: exact only when both are exact.
pub open spec fn branch_spec(a: DepthEstimate, b: DepthEstimate) -> DepthEstimate {
    match (a, b) {
        (DepthEstimate::Exact(x), DepthEstimate::Exact(y)) => DepthEstimate::Exact(max_int(x as int, y as int) as usize),
        _ => DepthEstimate::AtLeast(max_int(lb(a), lb(b)) as usize),
    }
}

fn saturating_mul(a: usize, b: usize) -> (r: usize)
    ensures
        r == sat_mul(a as int, b as int),
{
    match a.checked_mul(b) {
        Some(v) => v,
        None => usize::MAX,
    }
}

impl DepthEstimate {
    /// The known lower bound.
    pub fn lower_bound(self) -> (r: usize)
        ensures
            r == lb(self),
    {
        match self {
            DepthEstimate::Exact(n) | DepthEstimate::AtLeast(n) => n,
        }
    }

    pub fn add(self, other: Self) -> (r: Self)
        ensures
            r == add_spec(self, other),
    {
        match (self, other) {
            (DepthEstimate::Exact(a), DepthEstimate::Exact(b)) => DepthEstimate::Exact(a.saturating_add(b)),
            (a, b) => DepthEstimate::AtLeast(a.lower_bound().saturating_add(b.lower_bound())),
        }
    }

    pub fn repeat(self, count: usize) -> (r: Self)
        ensures
            r == repeat_spec(self, count),
    {
        match self {
            DepthEstimate::Exact(n) => DepthEstimate::Exact(saturating_mul(n, count)),
            DepthEstimate::AtLeast(n) => DepthEstimate::AtLeast(saturating_mul(n, count)),
        }
    }

    pub fn branch(a: Self, b: Self) -> (r: Self)
        ensures
            r == branch_spec(a, b),
    {
        match (a, b) {
            (DepthEstimate::Exact(x), DepthEstimate::Exact(y)) => DepthEstimate::Exact(
                if x >= y {
                    x
                } else {
                    y
                },
            ),
            (a, b) => {
                let x = a.lower_bound();
                let y = b.lower_bound();
                DepthEstimate::AtLeast(
                    if x >= y {
                        x
                    } else {
                        y
                    },
                )
            },
        }
    }

    /// Text of the estimate: `n`, or `>=n` for a lower bound.
    pub fn to_text(&self) -> (r: String)
        ensures
            r@ == match *self {
                DepthEstimate::Exact(n) => crate::text::decimal_text(n as nat),
                DepthEstimate::AtLeast(n) => ">="@ + crate::text::decimal_text(n as nat),
            },
    {
        let mut s = String::new();
        match self {
            DepthEstimate::Exact(n) => crate::text::push_usize(&mut s, *n),
            DepthEstimate::AtLeast(n) => {
                s.append(">=");
                crate::text::push_usize(&mut s, *n);
            },
        }
        assert(s@ =~= match *self {
            DepthEstimate::Exact(n) => crate::text::decimal_text(n as nat),
            DepthEstimate::AtLeast(n) => ">="@ + crate::text::decimal_text(n as nat),
        });
        s
    }
}

/// Adding depths never lowers the bound, and the order of the parts does
/// not matter; `Exact(0)` adds nothing.
pub proof fn law_add_estimates(a: DepthEstimate, b: DepthEstimate)
    ensures
        add_spec(a, b) == add_spec(b, a),
        lb(add_spec(a, b)) >= lb(a),
        add_spec(DepthEstimate::Exact(0), a) == (match a {
            DepthEstimate::Exact(n) => DepthEstimate::Exact(n),
            DepthEstimate::AtLeast(n) => DepthEstimate::AtLeast(n),
        }),
        add_spec(a, b) is Exact <==> (a is Exact && b is Exact),
{
}

/// A branch is at least as deep as either arm, is symmetric, and is exact
/// only when both arms are.
pub proof fn law_branch_estimates(a: DepthEstimate, b: DepthEstimate)
    ensures
        branch_spec(a, b) == branch_spec(b, a),
        lb(branch_spec(a, b)) >= lb(a),
        lb(branch_spec(a, b)) >= lb(b),
        branch_spec(a, a) == a,
        branch_spec(a, b) is Exact <==> (a is Exact && b is Exact),
{
}

/// Repetition keeps exactness; no repetitions means depth zero.
pub proof fn law_repeat_estimates(a: DepthEstimate, n: usize)
    ensures
        repeat_spec(a, n) is Exact <==> a is Exact,
        lb(repeat_spec(a, 0)) == 0,
        lb(repeat_spec(a, 1)) == lb(a),
{
}

// ── Compile-time evaluation ─────────────────────────────────

/// Value of a condition known at compile time: a boolean literal, or a
/// comparison of two compile-time integers.
pub open spec fn bool_value(e: Expr) -> Option<bool> {
    match e {
        Expr::BoolLit(b, _) => Some(b),
        Expr::Compare { op, lhs, rhs, .. } => match (const_int(*lhs), const_int(*rhs)) {
            (Some(a), Some(b)) => Some(
                match op {
                    CompareOp::Eq => a == b,
                    CompareOp::Ne => a != b,
                    CompareOp::Lt => a < b,
                    CompareOp::Le => a <= b,
                    CompareOp::Gt => a > b,
                    CompareOp::Ge => a >= b,
                },
            ),
            _ => None,
        },
        _ => None,
    }
}

pub fn eval_bool(expr: &Expr) -> (r: Option<bool>)
    ensures
        r == bool_value(*expr),
{
    match expr {
        Expr::BoolLit(value, _) => Some(*value),
        Expr::Compare { op, lhs, rhs, .. } => {
            match (eval_int(lhs), eval_int(rhs)) {
                (Some(a), Some(b)) => Some(
                    match op {
                        CompareOp::Eq => a == b,
                        CompareOp::Ne => a != b,
                        CompareOp::Lt => a < b,
                        CompareOp::Le => a <= b,
                        CompareOp::Gt => a > b,
                        CompareOp::Ge => a >= b,
                    },
                ),
                _ => None,
            }
        },
        _ => None,
    }
}

/// Iterations of `for` over `[start:step:end]` (inclusive), when all bounds
/// are compile-time integers, the step is non-zero and the count fits.
pub open spec fn trip_count(range: ForRange) -> Option<int> {
    let step = match range.step {
        Some(e) => const_int(e),
        None => Some(1),
    };
    match (const_int(range.start), const_int(range.end), step) {
        (Some(a), Some(b), Some(s)) => if s == 0 {
            None
        } else if (s > 0 && a > b) || (s < 0 && a < b) {
            Some(0)
        } else {
            let distance = if s > 0 {
                b - a
            } else {
                a - b
            };
            let step_abs = if s > 0 {
                s
            } else {
                -s
            };
            if distance > i128::MAX || step_abs > i128::MAX {
                None
            } else {
                let count = distance / step_abs + 1;
                if count > usize::MAX {
                    None
                } else {
                    Some(count)
                }
            }
        },
        _ => None,
    }
}

pub fn range_trip_count(range: &ForRange) -> (r: Option<usize>)
    ensures
        r matches Some(n) ==> trip_count(*range) == Some(n as int),
        r is None ==> trip_count(*range) is None,
{
    let start = eval_int(&range.start)?;
    let end = eval_int(&range.end)?;
    let step: i128 = match &range.step {
        Some(step) => eval_int(step)?,
        None => 1,
    };
    if step == 0 {
        return None;
    }
    let distance: i128 = if step > 0 {
        if start > end {
            return Some(0);
        }
        end.checked_sub(start)?
    } else {
        if start < end {
            return Some(0);
        }
        start.checked_sub(end)?
    };
    if step == i128::MIN {
        return None;
    }
    let step_abs: i128 = if step > 0 {
        step
    } else {
        -step
    };
    let intervals: i128 = distance / step_abs;
    assert(intervals <= distance) by (nonlinear_arith)
        requires
            intervals == distance / step_abs,
            distance >= 0,
            step_abs >= 1,
    ;
    let count: i128 = intervals.checked_add(1)?;
    if count > 18446744073709551615i128 || count as u128 > usize::MAX as u128 {
        return None;
    }
    Some(count as usize)
}

// ── Metrics ─────────────────────────────────────────────────

pub open spec fn sat(n: int) -> int {
    if n > usize::MAX {
        usize::MAX as int
    } else {
        n
    }
}

/// Live gates in all circuit regions of the statements.
pub open spec fn stmts_gates(v: Seq<HirStmt>) -> nat
    decreases v, 0nat,
{
    if v.len() == 0 {
        0
    } else {
        proof {
            assert(decreases_to!(v => v.drop_last()));
            assert(decreases_to!(v => v[v.len() - 1]));
        }
        stmts_gates(v.drop_last()) + stmt_gates(v.last())
    }
}

pub open spec fn stmt_gates(s: HirStmt) -> nat
    decreases s, 1nat,
{
    match s {
        HirStmt::Ast(_) => 0,
        HirStmt::Circuit(dag) => dag.live_gates(),
        HirStmt::If { then_body, else_body, .. } => {
            proof {
                assert(decreases_to!(s => then_body));
                assert(decreases_to!(then_body => then_body@));
            }
            stmts_gates(then_body@) + match else_body {
                Some(e) => {
                    proof {
                        assert(decreases_to!(s => else_body));
                        assert(decreases_to!(else_body => e));
                        assert(decreases_to!(e => e@));
                    }
                    stmts_gates(e@)
                },
                None => 0,
            }
        },
        HirStmt::For { body, .. } => {
            proof {
                assert(decreases_to!(s => body));
                assert(decreases_to!(body => body@));
            }
            stmts_gates(body@)
        },
        HirStmt::While { body, .. } => {
            proof {
                assert(decreases_to!(s => body));
                assert(decreases_to!(body => body@));
            }
            stmts_gates(body@)
        },
    }
}

/// Live operations in all circuit regions of the statements.
pub open spec fn stmts_ops(v: Seq<HirStmt>) -> nat
    decreases v, 0nat,
{
    if v.len() == 0 {
        0
    } else {
        proof {
            assert(decreases_to!(v => v.drop_last()));
            assert(decreases_to!(v => v[v.len() - 1]));
        }
        stmts_ops(v.drop_last()) + stmt_ops(v.last())
    }
}

pub open spec fn stmt_ops(s: HirStmt) -> nat
    decreases s, 1nat,
{
    match s {
        HirStmt::Ast(_) => 0,
        HirStmt::Circuit(dag) => dag.live_ops(),
        HirStmt::If { then_body, else_body, .. } => {
            proof {
                assert(decreases_to!(s => then_body));
                assert(decreases_to!(then_body => then_body@));
            }
            stmts_ops(then_body@) + match else_body {
                Some(e) => {
                    proof {
                        assert(decreases_to!(s => else_body));
                        assert(decreases_to!(else_body => e));
                        assert(decreases_to!(e => e@));
                    }
                    stmts_ops(e@)
                },
                None => 0,
            }
        },
        HirStmt::For { body, .. } => {
            proof {
                assert(decreases_to!(s => body));
                assert(decreases_to!(body => body@));
            }
            stmts_ops(body@)
        },
        HirStmt::While { body, .. } => {
            proof {
                assert(decreases_to!(s => body));
                assert(decreases_to!(body => body@));
            }
            stmts_ops(body@)
        },
    }
}

/// The depth of the statements is known exactly: every condition and loop
/// count that matters is a compile-time value, and no `while` may run.
pub open spec fn stmts_exact(v: Seq<HirStmt>) -> bool
    decreases v, 0nat,
{
    if v.len() == 0 {
        true
    } else {
        proof {
            assert(decreases_to!(v => v.drop_last()));
            assert(decreases_to!(v => v[v.len() - 1]));
        }
        stmts_exact(v.drop_last()) && stmt_exact(v.last())
    }
}

pub open spec fn stmt_exact(s: HirStmt) -> bool
    decreases s, 1nat,
{
    match s {
        HirStmt::Ast(_) => true,
        HirStmt::Circuit(_) => true,
        HirStmt::If { condition, then_body, else_body } => {
            proof {
                assert(decreases_to!(s => then_body));
                assert(decreases_to!(then_body => then_body@));
            }
            let else_exact = match else_body {
                Some(e) => {
                    proof {
                        assert(decreases_to!(s => else_body));
                        assert(decreases_to!(else_body => e));
                        assert(decreases_to!(e => e@));
                    }
                    stmts_exact(e@)
                },
                None => true,
            };
            match bool_value(condition) {
                Some(true) => stmts_exact(then_body@),
                Some(false) => else_exact,
                None => stmts_exact(then_body@) && else_exact,
            }
        },
        HirStmt::For { range, body, .. } => {
            proof {
                assert(decreases_to!(s => body));
                assert(decreases_to!(body => body@));
            }
            trip_count(range) is Some && stmts_exact(body@)
        },
        HirStmt::While { condition, .. } => bool_value(condition) == Some(false),
    }
}

proof fn lemma_sat_add(a: int, b: int)
    requires
        a >= 0,
        b >= 0,
    ensures
        sat_add(sat(a), sat(b)) == sat(a + b),
{
}

/// Saturating sum.
pub fn add_sat_pub(a: usize, b: usize) -> (r: usize)
    ensures
        r == sat_add(a as int, b as int),
{
    a.saturating_add(b)
}

fn add_sat(a: usize, b: usize) -> (r: usize)
    ensures
        r == sat_add(a as int, b as int),
{
    a.saturating_add(b)
}

#[verifier::loop_isolation(false)]
fn gate_count_stmts(stmts: &Vec<HirStmt>) -> (r: usize)
    requires
        hir_stmts_wf(stmts@),
    ensures
        r == sat(stmts_gates(stmts@) as int),
    decreases stmts, 0nat,
{
    let mut total: usize = 0;
    let mut i: usize = 0;
    assert(stmts@.take(0) =~= Seq::<HirStmt>::empty());
    while i < stmts.len()
        invariant
            i <= stmts@.len(),
            total == sat(stmts_gates(stmts@.take(i as int)) as int),
        decreases stmts@.len() - i,
    {
        proof {
            assert(decreases_to!(stmts => stmts@));
            assert(decreases_to!(stmts@ => stmts@[i as int]));
            assert(stmts@.take(i + 1).drop_last() =~= stmts@.take(i as int));
            lemma_stmts_wf_index(stmts@, i as int);
        }
        let c = gate_count_stmt(&stmts[i]);
        proof {
            lemma_sat_add(stmts_gates(stmts@.take(i as int)) as int, stmt_gates(stmts@[i as int]) as int);
        }
        total = add_sat(total, c);
        i += 1;
    }
    assert(stmts@.take(stmts@.len() as int) =~= stmts@);
    total
}

fn gate_count_stmt(stmt: &HirStmt) -> (r: usize)
    requires
        hir_stmt_wf(*stmt),
    ensures
        r == sat(stmt_gates(*stmt) as int),
    decreases stmt, 1nat,
{
    match stmt {
        HirStmt::Ast(_) => 0,
        HirStmt::Circuit(dag) => dag.gate_count(),
        HirStmt::If { then_body, else_body, .. } => {
            proof {
                assert(decreases_to!(*stmt => *then_body));
            }
            let a = gate_count_stmts(then_body);
            let b = match else_body {
                Some(e) => {
                    proof {
                        assert(decreases_to!(*stmt => *else_body));
                        assert(decreases_to!(*else_body => *e));
                    }
                    gate_count_stmts(e)
                },
                None => 0,
            };
            proof {
                lemma_sat_add(stmts_gates(then_body@) as int, match else_body {
                    Some(e) => stmts_gates(e@) as int,
                    None => 0int,
                });
            }
            add_sat(a, b)
        },
        HirStmt::For { body, .. } | HirStmt::While { body, .. } => {
            proof {
                assert(decreases_to!(*stmt => *body));
            }
            gate_count_stmts(body)
        },
    }
}

#[verifier::loop_isolation(false)]
fn op_count_stmts(stmts: &Vec<HirStmt>) -> (r: usize)
    requires
        hir_stmts_wf(stmts@),
    ensures
        r == sat(stmts_ops(stmts@) as int),
    decreases stmts, 0nat,
{
    let mut total: usize = 0;
    let mut i: usize = 0;
    assert(stmts@.take(0) =~= Seq::<HirStmt>::empty());
    while i < stmts.len()
        invariant
            i <= stmts@.len(),
            total == sat(stmts_ops(stmts@.take(i as int)) as int),
        decreases stmts@.len() - i,
    {
        proof {
            assert(decreases_to!(stmts => stmts@));
            assert(decreases_to!(stmts@ => stmts@[i as int]));
            assert(stmts@.take(i + 1).drop_last() =~= stmts@.take(i as int));
            lemma_stmts_wf_index(stmts@, i as int);
        }
        let c = op_count_stmt(&stmts[i]);
        proof {
            lemma_sat_add(stmts_ops(stmts@.take(i as int)) as int, stmt_ops(stmts@[i as int]) as int);
        }
        total = add_sat(total, c);
        i += 1;
    }
    assert(stmts@.take(stmts@.len() as int) =~= stmts@);
    total
}

fn op_count_stmt(stmt: &HirStmt) -> (r: usize)
    requires
        hir_stmt_wf(*stmt),
    ensures
        r == sat(stmt_ops(*stmt) as int),
    decreases stmt, 1nat,
{
    match stmt {
        HirStmt::Ast(_) => 0,
        HirStmt::Circuit(dag) => dag.op_count(),
        HirStmt::If { then_body, else_body, .. } => {
            proof {
                assert(decreases_to!(*stmt => *then_body));
            }
            let a = op_count_stmts(then_body);
            let b = match else_body {
                Some(e) => {
                    proof {
                        assert(decreases_to!(*stmt => *else_body));
                        assert(decreases_to!(*else_body => *e));
                    }
                    op_count_stmts(e)
                },
                None => 0,
            };
            proof {
                lemma_sat_add(stmts_ops(then_body@) as int, match else_body {
                    Some(e) => stmts_ops(e@) as int,
                    None => 0int,
                });
            }
            add_sat(a, b)
        },
        HirStmt::For { body, .. } | HirStmt::While { body, .. } => {
            proof {
                assert(decreases_to!(*stmt => *body));
            }
            op_count_stmts(body)
        },
    }
}

/// Every circuit region of the statements has in-degrees below the largest
/// `usize`, so its depth is computed exactly.
pub open spec fn stmts_fit(v: Seq<HirStmt>) -> bool
    decreases v, 0nat,
{
    if v.len() == 0 {
        true
    } else {
        proof {
            assert(decreases_to!(v => v.drop_last()));
            assert(decreases_to!(v => v[v.len() - 1]));
        }
        stmts_fit(v.drop_last()) && stmt_fit(v.last())
    }
}

pub open spec fn stmt_fit(s: HirStmt) -> bool
    decreases s, 1nat,
{
    match s {
        HirStmt::Circuit(dag) => crate::ir::in_degrees_fit(&dag),
        HirStmt::If { then_body, else_body, .. } => {
            proof {
                assert(decreases_to!(s => then_body));
                assert(decreases_to!(then_body => then_body@));
            }
            stmts_fit(then_body@) && match else_body {
                Some(e) => {
                    proof {
                        assert(decreases_to!(s => else_body));
                        assert(decreases_to!(else_body => e));
                        assert(decreases_to!(e => e@));
                    }
                    stmts_fit(e@)
                },
                None => true,
            }
        },
        HirStmt::For { body, .. } => {
            proof {
                assert(decreases_to!(s => body));
                assert(decreases_to!(body => body@));
            }
            stmts_fit(body@)
        },
        HirStmt::While { body, .. } => {
            proof {
                assert(decreases_to!(s => body));
                assert(decreases_to!(body => body@));
            }
            stmts_fit(body@)
        },
        HirStmt::Ast(_) => true,
    }
}

/// The depth estimate of statements run one after another.
pub open spec fn stmts_depth(v: Seq<HirStmt>) -> DepthEstimate
    decreases v, 0nat,
{
    if v.len() == 0 {
        DepthEstimate::Exact(0)
    } else {
        proof {
            assert(decreases_to!(v => v.drop_last()));
            assert(decreases_to!(v => v[v.len() - 1]));
        }
        add_spec(stmts_depth(v.drop_last()), stmt_depth(v.last()))
    }
}

/// The depth estimate of a statement: none for an AST statement, a region's
/// circuit depth, the branch a known condition takes (either branch
/// otherwise), the body repeated a known number of times (a `for` with an
/// unknown count has no known bound), and for a `while` nothing when it
/// never runs, at least its body when it surely runs, no known bound
/// otherwise.
pub open spec fn stmt_depth(s: HirStmt) -> DepthEstimate
    decreases s, 1nat,
{
    match s {
        HirStmt::Ast(_) => DepthEstimate::Exact(0),
        HirStmt::Circuit(dag) => DepthEstimate::Exact(crate::ir::circuit_depth(&dag) as usize),
        HirStmt::If { condition, then_body, else_body } => {
            proof {
                assert(decreases_to!(s => then_body));
                assert(decreases_to!(then_body => then_body@));
            }
            let t = stmts_depth(then_body@);
            let e = match else_body {
                Some(b) => {
                    proof {
                        assert(decreases_to!(s => else_body));
                        assert(decreases_to!(else_body => b));
                        assert(decreases_to!(b => b@));
                    }
                    stmts_depth(b@)
                },
                None => DepthEstimate::Exact(0),
            };
            match bool_value(condition) {
                Some(true) => t,
                Some(false) => e,
                None => branch_spec(t, e),
            }
        },
        HirStmt::For { range, body, .. } => {
            proof {
                assert(decreases_to!(s => body));
                assert(decreases_to!(body => body@));
            }
            match trip_count(range) {
                Some(c) => repeat_spec(stmts_depth(body@), c as usize),
                None => DepthEstimate::AtLeast(0),
            }
        },
        HirStmt::While { condition, body } => {
            proof {
                assert(decreases_to!(s => body));
                assert(decreases_to!(body => body@));
            }
            match bool_value(condition) {
                Some(false) => DepthEstimate::Exact(0),
                Some(true) => DepthEstimate::AtLeast(lb(stmts_depth(body@)) as usize),
                None => DepthEstimate::AtLeast(0),
            }
        },
    }
}

proof fn lemma_fit_prefix(v: Seq<HirStmt>, k: int)
    requires
        stmts_fit(v),
        0 <= k <= v.len(),
    ensures
        stmts_fit(v.take(k)),
    decreases v.len(),
{
    if k == v.len() {
        assert(v.take(k) =~= v);
    } else {
        lemma_fit_prefix(v.drop_last(), k);
        assert(v.drop_last().take(k) =~= v.take(k));
    }
}

#[verifier::loop_isolation(false)]
fn depth_stmts(stmts: &Vec<HirStmt>) -> (r: DepthEstimate)
    requires
        hir_stmts_wf(stmts@),
    ensures
        r is Exact <==> stmts_exact(stmts@),
        stmts_gates(stmts@) == 0 ==> lb(r) == 0,
        stmts_fit(stmts@) ==> r == stmts_depth(stmts@),
    decreases stmts, 0nat,
{
    let mut acc = DepthEstimate::Exact(0);
    let mut i: usize = 0;
    assert(stmts@.take(0) =~= Seq::<HirStmt>::empty());
    while i < stmts.len()
        invariant
            i <= stmts@.len(),
            acc is Exact <==> stmts_exact(stmts@.take(i as int)),
            stmts_gates(stmts@.take(i as int)) == 0 ==> lb(acc) == 0,
            stmts_fit(stmts@.take(i as int)) ==> acc == stmts_depth(stmts@.take(i as int)),
        decreases stmts@.len() - i,
    {
        proof {
            assert(decreases_to!(stmts => stmts@));
            assert(decreases_to!(stmts@ => stmts@[i as int]));
            assert(stmts@.take(i + 1).drop_last() =~= stmts@.take(i as int));
            lemma_stmts_wf_index(stmts@, i as int);
            if stmts_fit(stmts@) {
                lemma_fit_prefix(stmts@, i + 1);
            }
        }
        let d = depth_stmt(&stmts[i]);
        acc = acc.add(d);
        i += 1;
    }
    assert(stmts@.take(stmts@.len() as int) =~= stmts@);
    acc
}

fn depth_stmt(stmt: &HirStmt) -> (r: DepthEstimate)
    requires
        hir_stmt_wf(*stmt),
    ensures
        r is Exact <==> stmt_exact(*stmt),
        stmt_gates(*stmt) == 0 ==> lb(r) == 0,
        stmt_fit(*stmt) ==> r == stmt_depth(*stmt),
    decreases stmt, 1nat,
{
    match stmt {
        HirStmt::Ast(_) => DepthEstimate::Exact(0),
        HirStmt::Circuit(dag) => DepthEstimate::Exact(dag.depth()),
        HirStmt::If { condition, then_body, else_body } => {
            proof {
                assert(decreases_to!(*stmt => *then_body));
            }
            let known = eval_bool(condition);
            let then_depth = depth_stmts(then_body);
            let else_depth = match else_body {
                Some(e) => {
                    proof {
                        assert(decreases_to!(*stmt => *else_body));
                        assert(decreases_to!(*else_body => *e));
                    }
                    depth_stmts(e)
                },
                None => DepthEstimate::Exact(0),
            };
            match known {
                Some(true) => then_depth,
                Some(false) => else_depth,
                None => DepthEstimate::branch(then_depth, else_depth),
            }
        },
        HirStmt::For { range, body, .. } => {
            proof {
                assert(decreases_to!(*stmt => *body));
            }
            let body_depth = depth_stmts(body);
            match range_trip_count(range) {
                Some(count) => body_depth.repeat(count),
                None => DepthEstimate::AtLeast(0),
            }
        },
        HirStmt::While { condition, body } => {
            proof {
                assert(decreases_to!(*stmt => *body));
            }
            match eval_bool(condition) {
                Some(false) => DepthEstimate::Exact(0),
                Some(true) => DepthEstimate::AtLeast(depth_stmts(body).lower_bound()),
                None => DepthEstimate::AtLeast(0),
            }
        },
    }
}

// ── Emission ────────────────────────────────────────────────

/// For each circuit region of a statement, the order in which its
/// operations are emitted: at a region, its order; at control flow, the
/// orders for each statement of its bodies (the `else` body second).
pub enum RegionOrders {
    Region(Seq<usize>),
    Bodies(Seq<RegionOrders>, Seq<RegionOrders>),
    Nothing,
}

/// The text a statement emits at nesting level `depth`, its circuit regions
/// emitting their operations in the orders `w`: an AST statement's own
/// text; a region's operations, one line each; control flow around the
/// texts of its bodies, one level deeper.
pub open spec fn hir_stmt_text(s: HirStmt, depth: int, w: RegionOrders) -> Seq<char>
    decreases s, 1nat,
{
    let ind = indent_text(depth as nat);
    let (w1, w2) = match w {
        RegionOrders::Bodies(a, b) => (a, b),
        _ => (Seq::empty(), Seq::empty()),
    };
    match s {
        HirStmt::Ast(st) => stmt_text(st, depth),
        HirStmt::Circuit(dag) => match w {
            RegionOrders::Region(order) => ops_lines(&dag, order, depth as nat),
            _ => Seq::empty(),
        },
        HirStmt::If { condition, then_body, else_body } => {
            proof {
                assert(decreases_to!(s => then_body));
                assert(decreases_to!(then_body => then_body@));
            }
            ind + "if ("@ + expr_text(condition) + ") {\n"@ + hir_block_text(then_body@, inner_depth(depth), w1) + ind
                + match else_body {
                Some(b) => {
                    proof {
                        assert(decreases_to!(s => else_body));
                        assert(decreases_to!(else_body => b));
                        assert(decreases_to!(b => b@));
                    }
                    "} else {\n"@ + hir_block_text(b@, inner_depth(depth), w2) + ind + "}\n"@
                },
                None => "}\n"@,
            }
        },
        HirStmt::For { var_name, var_ty, range, body } => {
            proof {
                assert(decreases_to!(s => body));
                assert(decreases_to!(body => body@));
            }
            ind + "for "@ + classical_type_text(var_ty) + " "@ + var_name@ + " in ["@ + expr_text(range.start) + ":"@
                + step_text(range.step) + expr_text(range.end) + "] {\n"@ + hir_block_text(body@, inner_depth(depth), w1)
                + ind + "}\n"@
        },
        HirStmt::While { condition, body } => {
            proof {
                assert(decreases_to!(s => body));
                assert(decreases_to!(body => body@));
            }
            ind + "while ("@ + expr_text(condition) + ") {\n"@ + hir_block_text(body@, inner_depth(depth), w1) + ind
                + "}\n"@
        },
    }
}

/// The text of statements at nesting level `depth`, in order, the `k`th
/// with the orders `ws[k]`.
pub open spec fn hir_block_text(v: Seq<HirStmt>, depth: int, ws: Seq<RegionOrders>) -> Seq<char>
    decreases v, 0nat,
{
    if v.len() == 0 {
        Seq::empty()
    } else {
        proof {
            assert(decreases_to!(v => v.drop_last()));
            assert(decreases_to!(v => v[v.len() - 1]));
        }
        hir_block_text(v.drop_last(), depth, ws.drop_last()) + hir_stmt_text(v.last(), depth, ws.last())
    }
}

/// The orders `w` are emission orders of the statement's circuit regions.
pub open spec fn stmt_orders_ok(s: HirStmt, w: RegionOrders) -> bool
    decreases s, 1nat,
{
    let (w1, w2) = match w {
        RegionOrders::Bodies(a, b) => (a, b),
        _ => (Seq::empty(), Seq::empty()),
    };
    match s {
        HirStmt::Ast(_) => true,
        HirStmt::Circuit(dag) => match w {
            RegionOrders::Region(order) => emission_order(&dag, order),
            _ => false,
        },
        HirStmt::If { then_body, else_body, .. } => {
            proof {
                assert(decreases_to!(s => then_body));
                assert(decreases_to!(then_body => then_body@));
            }
            block_orders_ok(then_body@, w1) && match else_body {
                Some(b) => {
                    proof {
                        assert(decreases_to!(s => else_body));
                        assert(decreases_to!(else_body => b));
                        assert(decreases_to!(b => b@));
                    }
                    block_orders_ok(b@, w2)
                },
                None => true,
            }
        },
        HirStmt::For { body, .. } => {
            proof {
                assert(decreases_to!(s => body));
                assert(decreases_to!(body => body@));
            }
            block_orders_ok(body@, w1)
        },
        HirStmt::While { body, .. } => {
            proof {
                assert(decreases_to!(s => body));
                assert(decreases_to!(body => body@));
            }
            block_orders_ok(body@, w1)
        },
    }
}

pub open spec fn block_orders_ok(v: Seq<HirStmt>, ws: Seq<RegionOrders>) -> bool
    decreases v, 0nat,
{
    if v.len() == 0 {
        ws.len() == 0
    } else {
        proof {
            assert(decreases_to!(v => v.drop_last()));
            assert(decreases_to!(v => v[v.len() - 1]));
        }
        ws.len() == v.len() && block_orders_ok(v.drop_last(), ws.drop_last()) && stmt_orders_ok(v.last(), ws.last())
    }
}

/// The orders in which the statement's circuit regions are emitted: each
/// region's own emission order, through control-flow bodies.
pub open spec fn stmt_emitted_orders(s: HirStmt) -> RegionOrders
    decreases s, 1nat,
{
    match s {
        HirStmt::Ast(_) => RegionOrders::Nothing,
        HirStmt::Circuit(dag) => RegionOrders::Region(crate::ir::emitted_order(&dag)),
        HirStmt::If { then_body, else_body, .. } => {
            proof {
                assert(decreases_to!(s => then_body));
                assert(decreases_to!(then_body => then_body@));
            }
            RegionOrders::Bodies(
                block_emitted_orders(then_body@),
                match else_body {
                    Some(b) => {
                        proof {
                            assert(decreases_to!(s => else_body));
                            assert(decreases_to!(else_body => b));
                            assert(decreases_to!(b => b@));
                        }
                        block_emitted_orders(b@)
                    },
                    None => Seq::empty(),
                },
            )
        },
        HirStmt::For { body, .. } => {
            proof {
                assert(decreases_to!(s => body));
                assert(decreases_to!(body => body@));
            }
            RegionOrders::Bodies(block_emitted_orders(body@), Seq::empty())
        },
        HirStmt::While { body, .. } => {
            proof {
                assert(decreases_to!(s => body));
                assert(decreases_to!(body => body@));
            }
            RegionOrders::Bodies(block_emitted_orders(body@), Seq::empty())
        },
    }
}

pub open spec fn block_emitted_orders(v: Seq<HirStmt>) -> Seq<RegionOrders>
    decreases v, 0nat,
{
    if v.len() == 0 {
        Seq::empty()
    } else {
        proof {
            assert(decreases_to!(v => v.drop_last()));
            assert(decreases_to!(v => v[v.len() - 1]));
        }
        block_emitted_orders(v.drop_last()).push(stmt_emitted_orders(v.last()))
    }
}

/// The statements of a program, each after a blank line, with the orders `ws`.
pub open spec fn hir_body_text(v: Seq<HirStmt>, ws: Seq<RegionOrders>) -> Seq<char>
    decreases v.len(),
{
    if v.len() == 0 {
        Seq::empty()
    } else {
        hir_body_text(v.drop_last(), ws.drop_last()) + "\n"@ + hir_stmt_text(v.last(), 0, ws.last())
    }
}

/// The text of a whole program, with the orders `ws` for its statements.
pub open spec fn hir_program_text(p: HirProgram, ws: Seq<RegionOrders>) -> Seq<char> {
    "OPENQASM "@ + p.version@ + ";\n"@ + hir_body_text(p.statements@, ws)
}

fn emit_hir_stmt(out: &mut String, stmt: &HirStmt, depth: usize) -> (w: Ghost<RegionOrders>)
    requires
        hir_stmt_wf(*stmt),
    ensures
        final(out)@ == old(out)@ + hir_stmt_text(*stmt, depth as int, w@),
        stmt_orders_ok(*stmt, w@),
        w@ == stmt_emitted_orders(*stmt),
    decreases stmt, 2nat,
{
    let ghost before = out@;
    match stmt {
        HirStmt::Ast(s) => {
            emit_stmt(out, s, depth);
            Ghost(RegionOrders::Nothing)
        },
        HirStmt::Circuit(dag) => {
            dag.emit_ops_qasm(out, depth);
            let ghost order = crate::ir::emitted_order(dag);
            Ghost(RegionOrders::Region(order))
        },
        HirStmt::If { .. } => emit_hir_if(out, stmt, depth),
        HirStmt::For { .. } => emit_hir_for(out, stmt, depth),
        HirStmt::While { .. } => emit_hir_while(out, stmt, depth),
    }
}

#[verifier::rlimit(40)]
#[verifier::spinoff_prover]
fn emit_hir_if(out: &mut String, stmt: &HirStmt, depth: usize) -> (w: Ghost<RegionOrders>)
    requires
        hir_stmt_wf(*stmt),
        *stmt is If,
    ensures
        final(out)@ == old(out)@ + hir_stmt_text(*stmt, depth as int, w@),
        stmt_orders_ok(*stmt, w@),
        w@ == stmt_emitted_orders(*stmt),
    decreases stmt, 1nat,
{
    let ghost before = out@;
    match stmt {
        HirStmt::If { condition, then_body, else_body } => {
            indent(out, depth);
            out.append("if (");
            emit_expr(out, condition);
            out.append(") {\n");
            proof {
                assert(decreases_to!(*stmt => *then_body));
            }
            let Ghost(w1) = emit_hir_block(out, then_body, depth.saturating_add(1));
            indent(out, depth);
            match else_body {
                Some(e) => {
                    proof {
                        assert(decreases_to!(*stmt => *else_body));
                        assert(decreases_to!(*else_body => *e));
                    }
                    out.append("} else {\n");
                    let Ghost(w2) = emit_hir_block(out, e, depth.saturating_add(1));
                    indent(out, depth);
                    out.append("}\n");
                    let ghost w = RegionOrders::Bodies(w1, w2);
                    assert(out@ =~= before + hir_stmt_text(*stmt, depth as int, w));
                    Ghost(w)
                },
                None => {
                    out.append("}\n");
                    let ghost w = RegionOrders::Bodies(w1, Seq::empty());
                    assert(out@ =~= before + hir_stmt_text(*stmt, depth as int, w));
                    Ghost(w)
                },
            }
        },
        _ => Ghost(RegionOrders::Nothing),
    }
}

#[verifier::rlimit(40)]
#[verifier::spinoff_prover]
fn emit_hir_for(out: &mut String, stmt: &HirStmt, depth: usize) -> (w: Ghost<RegionOrders>)
    requires
        hir_stmt_wf(*stmt),
        *stmt is For,
    ensures
        final(out)@ == old(out)@ + hir_stmt_text(*stmt, depth as int, w@),
        stmt_orders_ok(*stmt, w@),
        w@ == stmt_emitted_orders(*stmt),
    decreases stmt, 1nat,
{
    let ghost before = out@;
    match stmt {
        HirStmt::For { var_name, var_ty, range, body } => {
            indent(out, depth);
            out.append("for ");
            out.append(var_ty.text());
            out.append(" ");
            out.append(var_name.as_str());
            out.append(" in [");
            emit_expr(out, &range.start);
            out.append(":");
            if let Some(step) = &range.step {
                emit_expr(out, step);
                out.append(":");
            }
            emit_expr(out, &range.end);
            out.append("] {\n");
            let ghost head = indent_text(depth as nat) + "for "@ + classical_type_text(*var_ty) + " "@ + var_name@
                + " in ["@ + expr_text(range.start) + ":"@ + step_text(range.step) + expr_text(range.end)
                + "] {\n"@;
            assert(out@ =~= before + head);
            proof {
                assert(decreases_to!(*stmt => *body));
            }
            let Ghost(w1) = emit_hir_block(out, body, depth.saturating_add(1));
            indent(out, depth);
            out.append("}\n");
            let ghost w = RegionOrders::Bodies(w1, Seq::empty());
            assert(hir_stmt_text(*stmt, depth as int, w) == head + hir_block_text(
                body@,
                inner_depth(depth as int),
                w1,
            ) + indent_text(depth as nat) + "}\n"@);
            assert(out@ =~= before + hir_stmt_text(*stmt, depth as int, w));
            Ghost(w)
        },
        _ => Ghost(RegionOrders::Nothing),
    }
}

#[verifier::rlimit(40)]
#[verifier::spinoff_prover]
fn emit_hir_while(out: &mut String, stmt: &HirStmt, depth: usize) -> (w: Ghost<RegionOrders>)
    requires
        hir_stmt_wf(*stmt),
        *stmt is While,
    ensures
        final(out)@ == old(out)@ + hir_stmt_text(*stmt, depth as int, w@),
        stmt_orders_ok(*stmt, w@),
        w@ == stmt_emitted_orders(*stmt),
    decreases stmt, 1nat,
{
    let ghost before = out@;
    match stmt {
        HirStmt::While { condition, body } => {
            indent(out, depth);
            out.append("while (");
            emit_expr(out, condition);
            out.append(") {\n");
            proof {
                assert(decreases_to!(*stmt => *body));
            }
            let Ghost(w1) = emit_hir_block(out, body, depth.saturating_add(1));
            indent(out, depth);
            out.append("}\n");
            let ghost w = RegionOrders::Bodies(w1, Seq::empty());
            assert(out@ =~= before + hir_stmt_text(*stmt, depth as int, w));
            Ghost(w)
        },
        _ => Ghost(RegionOrders::Nothing),
    }
}

fn emit_hir_block(out: &mut String, stmts: &Vec<HirStmt>, depth: usize) -> (ws: Ghost<Seq<RegionOrders>>)
    requires
        hir_stmts_wf(stmts@),
    ensures
        final(out)@ == old(out)@ + hir_block_text(stmts@, depth as int, ws@),
        block_orders_ok(stmts@, ws@),
        ws@ == block_emitted_orders(stmts@),
    decreases stmts, 0nat,
{
    let ghost start = out@;
    let ghost mut ws: Seq<RegionOrders> = Seq::empty();
    let mut i: usize = 0;
    assert(out@ =~= start + hir_block_text(stmts@.take(0), depth as int, ws));
    while i < stmts.len()
        invariant
            i <= stmts@.len(),
            hir_stmts_wf(stmts@),
            out@ == start + hir_block_text(stmts@.take(i as int), depth as int, ws),
            block_orders_ok(stmts@.take(i as int), ws),
            ws == block_emitted_orders(stmts@.take(i as int)),
        decreases stmts@.len() - i,
    {
        proof {
            assert(decreases_to!(stmts => stmts@));
            assert(decreases_to!(stmts@ => stmts@[i as int]));
            lemma_stmts_wf_index(stmts@, i as int);
        }
        let ghost before_ws = ws;
        let Ghost(w) = emit_hir_stmt(out, &stmts[i], depth);
        proof {
            ws = ws.push(w);
            let v = stmts@.take(i + 1);
            assert(v.drop_last() =~= stmts@.take(i as int));
            assert(ws.drop_last() =~= before_ws);
            assert(out@ =~= start + hir_block_text(v, depth as int, ws));
            assert(ws =~= block_emitted_orders(v));
        }
        i += 1;
    }
    assert(stmts@.take(stmts@.len() as int) =~= stmts@);
    Ghost(ws)
}

impl HirProgram {
    /// Live gates over all circuit regions (saturating).
    pub fn gate_count(&self) -> (r: usize)
        requires
            self.wf(),
        ensures
            r == sat(stmts_gates(self.statements@) as int),
    {
        gate_count_stmts(&self.statements)
    }

    /// Live operations over all circuit regions (saturating).
    pub fn op_count(&self) -> (r: usize)
        requires
            self.wf(),
        ensures
            r == sat(stmts_ops(self.statements@) as int),
    {
        op_count_stmts(&self.statements)
    }

    /// Depth estimate of the program: exact exactly when every condition
    /// and loop count that matters is known at compile time.
    pub fn depth_estimate(&self) -> (r: DepthEstimate)
        requires
            self.wf(),
        ensures
            r is Exact <==> stmts_exact(self.statements@),
            stmts_gates(self.statements@) == 0 ==> lb(r) == 0,
            stmts_fit(self.statements@) ==> r == stmts_depth(self.statements@),
    {
        depth_stmts(&self.statements)
    }

    /// Lower bound of the depth estimate.
    pub fn depth(&self) -> (r: usize)
        requires
            self.wf(),
        ensures
            stmts_gates(self.statements@) == 0 ==> r == 0,
            stmts_fit(self.statements@) ==> r == lb(stmts_depth(self.statements@)),
    {
        self.depth_estimate().lower_bound()
    }

    /// OpenQASM for the program: the version header, then each statement
    /// after a blank line, each circuit region's operations in an emission
    /// order.
    pub fn emit_qasm(&self) -> (r: String)
        requires
            self.wf(),
        ensures
            block_orders_ok(self.statements@, block_emitted_orders(self.statements@)),
            r@ == hir_program_text(*self, block_emitted_orders(self.statements@)),
            exists|ws: Seq<RegionOrders>|
                block_orders_ok(self.statements@, ws) && r@ == #[trigger] hir_program_text(*self, ws),
    {
        let mut out = String::new();
        out.append("OPENQASM ");
        out.append(self.version.as_str());
        out.append(";\n");
        let ghost header = out@;
        let ghost mut ws: Seq<RegionOrders> = Seq::empty();
        assert(header =~= "OPENQASM "@ + self.version@ + ";\n"@);
        let mut i: usize = 0;
        assert(out@ =~= header + hir_body_text(self.statements@.take(0), ws));
        while i < self.statements.len()
            invariant
                i <= self.statements@.len(),
                hir_stmts_wf(self.statements@),
                out@ == header + hir_body_text(self.statements@.take(i as int), ws),
                block_orders_ok(self.statements@.take(i as int), ws),
                ws == block_emitted_orders(self.statements@.take(i as int)),
            decreases self.statements@.len() - i,
        {
            proof {
                lemma_stmts_wf_index(self.statements@, i as int);
            }
            out.append("\n");
            let ghost before_ws = ws;
            let Ghost(w) = emit_hir_stmt(&mut out, &self.statements[i], 0);
            proof {
                ws = ws.push(w);
                let v = self.statements@.take(i + 1);
                assert(v.drop_last() =~= self.statements@.take(i as int));
                assert(ws.drop_last() =~= before_ws);
                assert(out@ =~= header + hir_body_text(v, ws));
                assert(ws =~= block_emitted_orders(v));
            }
            i += 1;
        }
        assert(self.statements@.take(self.statements@.len() as int) =~= self.statements@);
        assert(out@ == hir_program_text(*self, ws));
        out
    }
}

} // verus!





