//! The mathematical model of the syntax tree: the same tree with lists as
//! sequences and names and literal texts as character sequences.

use vstd::prelude::*;

use crate::ast::{
    AssignOp, BinOp, ClassicalQualifier, ClassicalType, CompareOp, ConstKind, Expr, ForRange, GateModifier,
    GateOperand, Stmt,
};
use crate::span::Span;

verus! {

broadcast use vstd::std_specs::vec::axiom_vec_decreases_to_view;

pub enum ExprModel {
    IntLit(u64, Span),
    FloatLit(Seq<char>, Span),
    BoolLit(bool, Span),
    Ident(Seq<char>, Span),
    Index { name: Seq<char>, index: u64, span: Span },
    Call { name: Seq<char>, args: Seq<ExprModel>, span: Span },
    Const(ConstKind, Span),
    Neg(Box<ExprModel>, Span),
    BinOp { op: BinOp, lhs: Box<ExprModel>, rhs: Box<ExprModel>, span: Span },
    Compare { op: CompareOp, lhs: Box<ExprModel>, rhs: Box<ExprModel>, span: Span },
}

pub struct OperandModel {
    pub name: Seq<char>,
    pub index: Option<u64>,
    pub slice: Option<(u64, u64)>,
    pub span: Span,
}

pub enum ModifierModel {
    Ctrl(Option<ExprModel>, Span),
    NegCtrl(Option<ExprModel>, Span),
    Inv(Span),
    Pow(ExprModel, Span),
}

pub struct RangeModel {
    pub start: ExprModel,
    pub end: ExprModel,
    pub step: Option<ExprModel>,
}

pub enum StmtModel {
    Include { path: Seq<char>, span: Span },
    QubitDecl { name: Seq<char>, size: Option<u64>, span: Span },
    BitDecl { name: Seq<char>, size: Option<u64>, span: Span },
    ClassicalDecl {
        qualifier: Option<ClassicalQualifier>,
        ty: ClassicalType,
        name: Seq<char>,
        init: Option<ExprModel>,
        span: Span,
    },
    Assignment { name: Seq<char>, op: AssignOp, value: ExprModel, span: Span },
    GateCall {
        name: Seq<char>,
        modifiers: Seq<ModifierModel>,
        params: Seq<ExprModel>,
        args: Seq<OperandModel>,
        span: Span,
    },
    GateDef {
        name: Seq<char>,
        params: Seq<Seq<char>>,
        qparams: Seq<Seq<char>>,
        body: Seq<StmtModel>,
        span: Span,
    },
    FunctionDef {
        name: Seq<char>,
        params: Seq<(ClassicalType, Seq<char>)>,
        return_type: ClassicalType,
        body: ExprModel,
        span: Span,
    },
    Measure { qubit: OperandModel, target: Option<OperandModel>, span: Span },
    Reset { target: OperandModel, span: Span },
    Barrier { targets: Seq<OperandModel>, span: Span },
    Delay { duration: ExprModel, targets: Seq<OperandModel>, span: Span },
    If { condition: ExprModel, then_body: Seq<StmtModel>, else_body: Option<Seq<StmtModel>>, span: Span },
    For { var_name: Seq<char>, var_ty: ClassicalType, range: RangeModel, body: Seq<StmtModel>, span: Span },
    While { condition: ExprModel, body: Seq<StmtModel>, span: Span },
}

pub open spec fn expr_model(e: Expr) -> ExprModel
    decreases e,
{
    match e {
        Expr::IntLit(n, s) => ExprModel::IntLit(n, s),
        Expr::FloatLit(t, s) => ExprModel::FloatLit(t@, s),
        Expr::BoolLit(b, s) => ExprModel::BoolLit(b, s),
        Expr::Ident(n, s) => ExprModel::Ident(n@, s),
        Expr::Index { name, index, span } => ExprModel::Index { name: name@, index, span },
        Expr::Call { name, args, span } => ExprModel::Call { name: name@, args: exprs_model(args@), span },
        Expr::Const(k, s) => ExprModel::Const(k, s),
        Expr::Neg(inner, s) => ExprModel::Neg(Box::new(expr_model(*inner)), s),
        Expr::BinOp { op, lhs, rhs, span } => ExprModel::BinOp {
            op,
            lhs: Box::new(expr_model(*lhs)),
            rhs: Box::new(expr_model(*rhs)),
            span,
        },
        Expr::Compare { op, lhs, rhs, span } => ExprModel::Compare {
            op,
            lhs: Box::new(expr_model(*lhs)),
            rhs: Box::new(expr_model(*rhs)),
            span,
        },
    }
}

pub open spec fn exprs_model(v: Seq<Expr>) -> Seq<ExprModel>
    decreases v,
{
    if v.len() == 0 {
        seq![]
    } else {
        exprs_model(v.drop_last()).push(expr_model(v.last()))
    }
}

pub open spec fn opt_expr_model(e: Option<Expr>) -> Option<ExprModel> {
    match e {
        Some(x) => Some(expr_model(x)),
        None => None,
    }
}

pub open spec fn operand_model(o: GateOperand) -> OperandModel {
    OperandModel { name: o.name@, index: o.index, slice: o.slice, span: o.span }
}

pub open spec fn operands_model(v: Seq<GateOperand>) -> Seq<OperandModel> {
    v.map_values(|o: GateOperand| operand_model(o))
}

pub open spec fn modifier_model(m: GateModifier) -> ModifierModel {
    match m {
        GateModifier::Ctrl(e, s) => ModifierModel::Ctrl(opt_expr_model(e), s),
        GateModifier::NegCtrl(e, s) => ModifierModel::NegCtrl(opt_expr_model(e), s),
        GateModifier::Inv(s) => ModifierModel::Inv(s),
        GateModifier::Pow(e, s) => ModifierModel::Pow(expr_model(e), s),
    }
}

pub open spec fn modifiers_model(v: Seq<GateModifier>) -> Seq<ModifierModel> {
    v.map_values(|m: GateModifier| modifier_model(m))
}

pub open spec fn names_model(v: Seq<String>) -> Seq<Seq<char>> {
    v.map_values(|s: String| s@)
}

pub open spec fn typed_names_model(v: Seq<(ClassicalType, String)>) -> Seq<(ClassicalType, Seq<char>)> {
    v.map_values(|p: (ClassicalType, String)| (p.0, p.1@))
}

pub open spec fn range_model(r: ForRange) -> RangeModel {
    RangeModel { start: expr_model(r.start), end: expr_model(r.end), step: opt_expr_model(r.step) }
}

pub open spec fn stmt_model(s: Stmt) -> StmtModel
    decreases s,
{
    match s {
        Stmt::Include { path, span } => StmtModel::Include { path: path@, span },
        Stmt::QubitDecl { name, size, span } => StmtModel::QubitDecl { name: name@, size, span },
        Stmt::BitDecl { name, size, span } => StmtModel::BitDecl { name: name@, size, span },
        Stmt::ClassicalDecl { qualifier, ty, name, init, span } => StmtModel::ClassicalDecl {
            qualifier,
            ty,
            name: name@,
            init: opt_expr_model(init),
            span,
        },
        Stmt::Assignment { name, op, value, span } => StmtModel::Assignment {
            name: name@,
            op,
            value: expr_model(value),
            span,
        },
        Stmt::GateCall { name, modifiers, params, args, span } => StmtModel::GateCall {
            name: name@,
            modifiers: modifiers_model(modifiers@),
            params: exprs_model(params@),
            args: operands_model(args@),
            span,
        },
        Stmt::GateDef { name, params, qparams, body, span } => StmtModel::GateDef {
            name: name@,
            params: names_model(params@),
            qparams: names_model(qparams@),
            body: stmts_model(body@),
            span,
        },
        Stmt::FunctionDef { name, params, return_type, body, span } => StmtModel::FunctionDef {
            name: name@,
            params: typed_names_model(params@),
            return_type,
            body: expr_model(body),
            span,
        },
        Stmt::Measure { qubit, target, span } => StmtModel::Measure {
            qubit: operand_model(qubit),
            target: match target {
                Some(t) => Some(operand_model(t)),
                None => None,
            },
            span,
        },
        Stmt::Reset { target, span } => StmtModel::Reset { target: operand_model(target), span },
        Stmt::Barrier { targets, span } => StmtModel::Barrier { targets: operands_model(targets@), span },
        Stmt::Delay { duration, targets, span } => StmtModel::Delay {
            duration: expr_model(duration),
            targets: operands_model(targets@),
            span,
        },
        Stmt::If { condition, then_body, else_body, span } => StmtModel::If {
            condition: expr_model(condition),
            then_body: stmts_model(then_body@),
            else_body: match else_body {
                Some(b) => Some(stmts_model(b@)),
                None => None,
            },
            span,
        },
        Stmt::For { var_name, var_ty, range, body, span } => StmtModel::For {
            var_name: var_name@,
            var_ty,
            range: range_model(range),
            body: stmts_model(body@),
            span,
        },
        Stmt::While { condition, body, span } => StmtModel::While {
            condition: expr_model(condition),
            body: stmts_model(body@),
            span,
        },
    }
}

pub open spec fn stmts_model(v: Seq<Stmt>) -> Seq<StmtModel>
    decreases v,
{
    if v.len() == 0 {
        seq![]
    } else {
        stmts_model(v.drop_last()).push(stmt_model(v.last()))
    }
}

pub open spec fn expr_model_span(e: ExprModel) -> Span {
    match e {
        ExprModel::IntLit(_, s) => s,
        ExprModel::FloatLit(_, s) => s,
        ExprModel::BoolLit(_, s) => s,
        ExprModel::Ident(_, s) => s,
        ExprModel::Index { span, .. } => span,
        ExprModel::Call { span, .. } => span,
        ExprModel::Const(_, s) => s,
        ExprModel::Neg(_, s) => s,
        ExprModel::BinOp { span, .. } => span,
        ExprModel::Compare { span, .. } => span,
    }
}

pub proof fn lemma_expr_model_span(e: Expr)
    ensures
        expr_model_span(expr_model(e)) == crate::ast::expr_span(e),
{
}

pub proof fn lemma_exprs_model_push(v: Seq<Expr>, e: Expr)
    ensures
        exprs_model(v.push(e)) == exprs_model(v).push(expr_model(e)),
{
    assert(v.push(e).drop_last() =~= v);
}

pub proof fn lemma_stmts_model_push(v: Seq<Stmt>, s: Stmt)
    ensures
        stmts_model(v.push(s)) == stmts_model(v).push(stmt_model(s)),
{
    assert(v.push(s).drop_last() =~= v);
}

} // verus!
