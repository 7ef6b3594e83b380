//! Span-annotated AST for the supported OpenQASM 3 subset.

use vstd::prelude::*;

use crate::span::Span;
use crate::syntax::{
    expr_model, exprs_model, lemma_exprs_model_push, lemma_stmts_model_push, modifier_model, modifiers_model,
    names_model, operands_model, opt_expr_model, range_model, stmt_model, stmts_model, typed_names_model,
};

verus! {

#[derive(Debug)]
pub struct Program {
    pub version: String,
    pub statements: Vec<Stmt>,
}

#[derive(Debug)]
pub enum Stmt {
    Include { path: String, span: Span },
    QubitDecl { name: String, size: Option<u64>, span: Span },
    BitDecl { name: String, size: Option<u64>, span: Span },
    ClassicalDecl {
        qualifier: Option<ClassicalQualifier>,
        ty: ClassicalType,
        name: String,
        init: Option<Expr>,
        span: Span,
    },
    Assignment { name: String, op: AssignOp, value: Expr, span: Span },
    GateCall {
        name: String,
        modifiers: Vec<GateModifier>,
        params: Vec<Expr>,
        args: Vec<GateOperand>,
        span: Span,
    },
    GateDef {
        name: String,
        params: Vec<String>,
        qparams: Vec<String>,
        body: Vec<Stmt>,
        span: Span,
    },
    FunctionDef {
        name: String,
        params: Vec<(ClassicalType, String)>,
        return_type: ClassicalType,
        body: Expr,
        span: Span,
    },
    Measure { qubit: GateOperand, target: Option<GateOperand>, span: Span },
    Reset { target: GateOperand, span: Span },
    Barrier { targets: Vec<GateOperand>, span: Span },
    Delay { duration: Expr, targets: Vec<GateOperand>, span: Span },
    If { condition: Expr, then_body: Vec<Stmt>, else_body: Option<Vec<Stmt>>, span: Span },
    For { var_name: String, var_ty: ClassicalType, range: ForRange, body: Vec<Stmt>, span: Span },
    While { condition: Expr, body: Vec<Stmt>, span: Span },
}

/// The span of a statement.
pub open spec fn stmt_span(s: Stmt) -> Span {
    match s {
        Stmt::Include { span, .. } => span,
        Stmt::QubitDecl { span, .. } => span,
        Stmt::BitDecl { span, .. } => span,
        Stmt::ClassicalDecl { span, .. } => span,
        Stmt::Assignment { span, .. } => span,
        Stmt::GateCall { span, .. } => span,
        Stmt::GateDef { span, .. } => span,
        Stmt::FunctionDef { span, .. } => span,
        Stmt::Measure { span, .. } => span,
        Stmt::Reset { span, .. } => span,
        Stmt::Barrier { span, .. } => span,
        Stmt::Delay { span, .. } => span,
        Stmt::If { span, .. } => span,
        Stmt::For { span, .. } => span,
        Stmt::While { span, .. } => span,
    }
}

impl Stmt {
    pub fn span(&self) -> (r: &Span)
        ensures
            *r == stmt_span(*self),
    {
        match self {
            Stmt::Include { span, .. } => span,
            Stmt::QubitDecl { span, .. } => span,
            Stmt::BitDecl { span, .. } => span,
            Stmt::ClassicalDecl { span, .. } => span,
            Stmt::Assignment { span, .. } => span,
            Stmt::GateCall { span, .. } => span,
            Stmt::GateDef { span, .. } => span,
            Stmt::FunctionDef { span, .. } => span,
            Stmt::Measure { span, .. } => span,
            Stmt::Reset { span, .. } => span,
            Stmt::Barrier { span, .. } => span,
            Stmt::Delay { span, .. } => span,
            Stmt::If { span, .. } => span,
            Stmt::For { span, .. } => span,
            Stmt::While { span, .. } => span,
        }
    }
}

/// Classical type specifier.
#[derive(Debug, Clone, Copy, PartialEq, Eq, Structural)]
pub enum ClassicalType {
    Int,
    UInt,
    Float,
    Angle,
    Bool,
}

#[derive(Debug, Clone, Copy, PartialEq, Eq, Structural)]
pub enum ClassicalQualifier {
    Const,
    Input,
    Output,
}

/// Assignment operator kind.
#[derive(Debug, Clone, Copy, PartialEq, Eq, Structural)]
pub enum AssignOp {
    Assign,
    AddAssign,
    SubAssign,
}

/// Range expression for `for` loops: `[start:end]` or `[start:step:end]`.
#[derive(Debug)]
pub struct ForRange {
    pub start: Expr,
    pub end: Expr,
    pub step: Option<Expr>,
}

/// A gate modifier: `ctrl @`, `negctrl @`, `inv @`, `pow(k) @`.
#[derive(Debug)]
pub enum GateModifier {
    Ctrl(Option<Expr>, Span),
    NegCtrl(Option<Expr>, Span),
    Inv(Span),
    Pow(Expr, Span),
}

/// Expression tree for classical values.
#[derive(Debug)]
pub enum Expr {
    IntLit(u64, Span),
    /// A floating literal, held as its canonical decimal text.
    FloatLit(String, Span),
    BoolLit(bool, Span),
    Ident(String, Span),
    Index { name: String, index: u64, span: Span },
    Call { name: String, args: Vec<Expr>, span: Span },
    /// Built-in constants: pi, tau, euler
    Const(ConstKind, Span),
    Neg(Box<Expr>, Span),
    BinOp { op: BinOp, lhs: Box<Expr>, rhs: Box<Expr>, span: Span },
    Compare { op: CompareOp, lhs: Box<Expr>, rhs: Box<Expr>, span: Span },
}

/// The span of an expression.
pub open spec fn expr_span(e: Expr) -> Span {
    match e {
        Expr::IntLit(_, s) => s,
        Expr::FloatLit(_, s) => s,
        Expr::BoolLit(_, s) => s,
        Expr::Ident(_, s) => s,
        Expr::Index { span, .. } => span,
        Expr::Call { span, .. } => span,
        Expr::Const(_, s) => s,
        Expr::Neg(_, s) => s,
        Expr::BinOp { span, .. } => span,
        Expr::Compare { span, .. } => span,
    }
}

impl Expr {
    pub fn span(&self) -> (r: &Span)
        ensures
            *r == expr_span(*self),
    {
        match self {
            Expr::IntLit(_, s) => s,
            Expr::FloatLit(_, s) => s,
            Expr::BoolLit(_, s) => s,
            Expr::Ident(_, s) => s,
            Expr::Index { span, .. } => span,
            Expr::Call { span, .. } => span,
            Expr::Const(_, s) => s,
            Expr::Neg(_, s) => s,
            Expr::BinOp { span, .. } => span,
            Expr::Compare { span, .. } => span,
        }
    }
}

#[derive(Debug, Clone, Copy, PartialEq, Eq, Structural)]
pub enum BinOp {
    Add,
    Sub,
    Mul,
    Div,
    Pow,
}

#[derive(Debug, Clone, Copy, PartialEq, Eq, Structural)]
pub enum CompareOp {
    Eq,
    Ne,
    Lt,
    Le,
    Gt,
    Ge,
}

#[derive(Debug, Clone, Copy, PartialEq, Eq, Structural)]
pub enum ConstKind {
    Pi,
    Tau,
    Euler,
}

#[derive(Debug)]
pub struct GateOperand {
    pub name: String,
    pub index: Option<u64>,
    pub slice: Option<(u64, u64)>,
    pub span: Span,
}

impl Clone for GateOperand {
    fn clone(&self) -> (r: Self)
        ensures
            r == *self,
    {
        GateOperand { name: self.name.clone(), index: self.index, slice: self.slice, span: self.span }
    }
}

// ── Copies ──────────────────────────────────────────────────

impl Clone for Expr {
    #[verifier::loop_isolation(false)]
    fn clone(&self) -> (r: Self)
        ensures
            expr_model(r) == expr_model(*self),
        decreases self,
    {
        match self {
            Expr::IntLit(n, s) => Expr::IntLit(*n, *s),
            Expr::FloatLit(t, s) => Expr::FloatLit(t.clone(), *s),
            Expr::BoolLit(b, s) => Expr::BoolLit(*b, *s),
            Expr::Ident(n, s) => Expr::Ident(n.clone(), *s),
            Expr::Index { name, index, span } => Expr::Index {
                name: name.clone(),
                index: *index,
                span: *span,
            },
            Expr::Call { name, args, span } => {
                let mut copied: Vec<Expr> = Vec::new();
                let mut i: usize = 0;
                assert(exprs_model(copied@) =~= exprs_model(args@.take(0)));
                while i < args.len()
                    invariant
                        i <= args.len(),
                        exprs_model(copied@) == exprs_model(args@.take(i as int)),
                    decreases args.len() - i,
                {
                    proof {
                        assert(decreases_to!(self => *args));
                        assert(decreases_to!(args => args@));
                        assert(decreases_to!(args@ => args@[i as int]));
                    }
                    let c = args[i].clone();
                    proof {
                        lemma_exprs_model_push(copied@, c);
                        lemma_exprs_model_push(args@.take(i as int), args@[i as int]);
                        assert(args@.take(i + 1) =~= args@.take(i as int).push(args@[i as int]));
                    }
                    copied.push(c);
                    i += 1;
                }
                assert(args@.take(args@.len() as int) =~= args@);
                Expr::Call { name: name.clone(), args: copied, span: *span }
            },
            Expr::Const(k, s) => Expr::Const(*k, *s),
            Expr::Neg(inner, s) => Expr::Neg(Box::new((**inner).clone()), *s),
            Expr::BinOp { op, lhs, rhs, span } => Expr::BinOp {
                op: *op,
                lhs: Box::new((**lhs).clone()),
                rhs: Box::new((**rhs).clone()),
                span: *span,
            },
            Expr::Compare { op, lhs, rhs, span } => Expr::Compare {
                op: *op,
                lhs: Box::new((**lhs).clone()),
                rhs: Box::new((**rhs).clone()),
                span: *span,
            },
        }
    }
}

pub(crate) fn clone_opt_expr(e: &Option<Expr>) -> (r: Option<Expr>)
    ensures
        opt_expr_model(r) == opt_expr_model(*e),
{
    match e {
        Some(x) => Some(x.clone()),
        None => None,
    }
}

fn clone_exprs(v: &Vec<Expr>) -> (r: Vec<Expr>)
    ensures
        exprs_model(r@) == exprs_model(v@),
{
    let mut out: Vec<Expr> = Vec::new();
    let mut i: usize = 0;
    assert(exprs_model(out@) =~= exprs_model(v@.take(0)));
    while i < v.len()
        invariant
            i <= v.len(),
            exprs_model(out@) == exprs_model(v@.take(i as int)),
        decreases v.len() - i,
    {
        let c = v[i].clone();
        proof {
            lemma_exprs_model_push(out@, c);
            lemma_exprs_model_push(v@.take(i as int), v@[i as int]);
            assert(v@.take(i + 1) =~= v@.take(i as int).push(v@[i as int]));
        }
        out.push(c);
        i += 1;
    }
    assert(v@.take(v@.len() as int) =~= v@);
    out
}

fn clone_strings(v: &Vec<String>) -> (r: Vec<String>)
    ensures
        names_model(r@) == names_model(v@),
{
    let mut out: Vec<String> = Vec::new();
    let mut i: usize = 0;
    while i < v.len()
        invariant
            i <= v.len(),
            out@ == v@.take(i as int),
        decreases v.len() - i,
    {
        out.push(v[i].clone());
        assert(out@ =~= v@.take(i + 1));
        i += 1;
    }
    assert(v@.take(v@.len() as int) =~= v@);
    out
}

pub(crate) fn clone_operands(v: &Vec<GateOperand>) -> (r: Vec<GateOperand>)
    ensures
        r@ == v@,
        operands_model(r@) == operands_model(v@),
{
    let mut out: Vec<GateOperand> = Vec::new();
    let mut i: usize = 0;
    while i < v.len()
        invariant
            i <= v.len(),
            out@ == v@.take(i as int),
        decreases v.len() - i,
    {
        out.push(v[i].clone());
        assert(out@ =~= v@.take(i + 1));
        i += 1;
    }
    assert(v@.take(v@.len() as int) =~= v@);
    out
}

impl Clone for GateModifier {
    fn clone(&self) -> (r: Self)
        ensures
            modifier_model(r) == modifier_model(*self),
    {
        match self {
            GateModifier::Ctrl(e, s) => GateModifier::Ctrl(clone_opt_expr(e), *s),
            GateModifier::NegCtrl(e, s) => GateModifier::NegCtrl(clone_opt_expr(e), *s),
            GateModifier::Inv(s) => GateModifier::Inv(*s),
            GateModifier::Pow(e, s) => GateModifier::Pow(e.clone(), *s),
        }
    }
}

impl Clone for ForRange {
    fn clone(&self) -> (r: Self)
        ensures
            range_model(r) == range_model(*self),
    {
        ForRange { start: self.start.clone(), end: self.end.clone(), step: clone_opt_expr(&self.step) }
    }
}

/// The name of a function definition.
pub open spec fn function_def_name(s: Stmt) -> Option<Seq<char>> {
    match s {
        Stmt::FunctionDef { name, .. } => Some(name@),
        _ => None,
    }
}

/// A copy of a statement list; function definitions keep their names.
#[verifier::loop_isolation(false)]
pub fn clone_stmts(v: &Vec<Stmt>) -> (r: Vec<Stmt>)
    ensures
        r@.len() == v@.len(),
        forall|i: int| 0 <= i < v@.len() ==> function_def_name(#[trigger] r@[i]) == function_def_name(v@[i]),
        stmts_model(r@) == stmts_model(v@),
    decreases v,
{
    let mut out: Vec<Stmt> = Vec::new();
    let mut i: usize = 0;
    assert(stmts_model(out@) =~= stmts_model(v@.take(0)));
    while i < v.len()
        invariant
            i <= v.len(),
            out@.len() == i,
            forall|j: int| 0 <= j < i ==> function_def_name(#[trigger] out@[j]) == function_def_name(v@[j]),
            stmts_model(out@) == stmts_model(v@.take(i as int)),
        decreases v.len() - i,
    {
        proof {
            assert(decreases_to!(v => v@));
            assert(decreases_to!(v@ => v@[i as int]));
        }
        let c = clone_stmt(&v[i]);
        proof {
            lemma_stmts_model_push(out@, c);
            lemma_stmts_model_push(v@.take(i as int), v@[i as int]);
            assert(v@.take(i + 1) =~= v@.take(i as int).push(v@[i as int]));
        }
        out.push(c);
        i += 1;
    }
    assert(v@.take(v@.len() as int) =~= v@);
    out
}

pub(crate) fn clone_stmt(s: &Stmt) -> (r: Stmt)
    ensures
        function_def_name(r) == function_def_name(*s),
        stmt_model(r) == stmt_model(*s),
    decreases s,
{
    match s {
        Stmt::Include { path, span } => Stmt::Include { path: path.clone(), span: *span },
        Stmt::QubitDecl { name, size, span } => Stmt::QubitDecl {
            name: name.clone(),
            size: *size,
            span: *span,
        },
        Stmt::BitDecl { name, size, span } => Stmt::BitDecl {
            name: name.clone(),
            size: *size,
            span: *span,
        },
        Stmt::ClassicalDecl { qualifier, ty, name, init, span } => Stmt::ClassicalDecl {
            qualifier: *qualifier,
            ty: *ty,
            name: name.clone(),
            init: clone_opt_expr(init),
            span: *span,
        },
        Stmt::Assignment { name, op, value, span } => Stmt::Assignment {
            name: name.clone(),
            op: *op,
            value: value.clone(),
            span: *span,
        },
        Stmt::GateCall { name, modifiers, params, args, span } => {
            let mut mods: Vec<GateModifier> = Vec::new();
            let mut i: usize = 0;
            while i < modifiers.len()
                invariant
                    i <= modifiers.len(),
                    modifiers_model(mods@) == modifiers_model(modifiers@.take(i as int)),
                decreases modifiers.len() - i,
            {
                let ghost before = mods@;
                let c = modifiers[i].clone();
                assert(modifier_model(c) == modifier_model(modifiers@[i as int]));
                mods.push(c);
                assert(modifiers@.take(i + 1) =~= modifiers@.take(i as int).push(modifiers@[i as int]));
                assert(modifiers_model(mods@) =~= modifiers_model(before).push(modifier_model(c)));
                assert(modifiers_model(modifiers@.take(i + 1)) =~= modifiers_model(modifiers@.take(i as int)).push(
                    modifier_model(modifiers@[i as int]),
                ));
                i += 1;
            }
            assert(modifiers@.take(modifiers@.len() as int) =~= modifiers@);
            Stmt::GateCall {
                name: name.clone(),
                modifiers: mods,
                params: clone_exprs(params),
                args: clone_operands(args),
                span: *span,
            }
        },
        Stmt::GateDef { name, params, qparams, body, span } => {
            proof {
                assert(decreases_to!(s => *body));
            }
            Stmt::GateDef {
                name: name.clone(),
                params: clone_strings(params),
                qparams: clone_strings(qparams),
                body: clone_stmts(body),
                span: *span,
            }
        },
        Stmt::FunctionDef { name, params, return_type, body, span } => {
            let mut ps: Vec<(ClassicalType, String)> = Vec::new();
            let mut i: usize = 0;
            while i < params.len()
                invariant
                    i <= params.len(),
                    ps@ == params@.take(i as int),
                decreases params.len() - i,
            {
                ps.push((params[i].0, params[i].1.clone()));
                assert(ps@ =~= params@.take(i + 1));
                i += 1;
            }
            assert(params@.take(params@.len() as int) =~= params@);
            Stmt::FunctionDef {
                name: name.clone(),
                params: ps,
                return_type: *return_type,
                body: body.clone(),
                span: *span,
            }
        },
        Stmt::Measure { qubit, target, span } => Stmt::Measure {
            qubit: qubit.clone(),
            target: match target {
                Some(t) => Some(t.clone()),
                None => None,
            },
            span: *span,
        },
        Stmt::Reset { target, span } => Stmt::Reset { target: target.clone(), span: *span },
        Stmt::Barrier { targets, span } => Stmt::Barrier {
            targets: clone_operands(targets),
            span: *span,
        },
        Stmt::Delay { duration, targets, span } => Stmt::Delay {
            duration: duration.clone(),
            targets: clone_operands(targets),
            span: *span,
        },
        Stmt::If { condition, then_body, else_body, span } => {
            proof {
                assert(decreases_to!(s => *then_body));
            }
            let tb = clone_stmts(then_body);
            let eb = match else_body {
                Some(b) => {
                    proof {
                        assert(decreases_to!(s => *else_body));
                        assert(decreases_to!(*else_body => *b));
                    }
                    Some(clone_stmts(b))
                },
                None => None,
            };
            Stmt::If { condition: condition.clone(), then_body: tb, else_body: eb, span: *span }
        },
        Stmt::For { var_name, var_ty, range, body, span } => {
            proof {
                assert(decreases_to!(s => *body));
            }
            Stmt::For {
                var_name: var_name.clone(),
                var_ty: *var_ty,
                range: range.clone(),
                body: clone_stmts(body),
                span: *span,
            }
        },
        Stmt::While { condition, body, span } => {
            proof {
                assert(decreases_to!(s => *body));
            }
            Stmt::While { condition: condition.clone(), body: clone_stmts(body), span: *span }
        },
    }
}

impl Clone for Stmt {
    fn clone(&self) -> (r: Self)
        ensures
            stmt_model(r) == stmt_model(*self),
    {
        clone_stmt(self)
    }
}

impl Clone for Program {
    fn clone(&self) -> (r: Self)
        ensures
            r.version@ == self.version@,
            stmts_model(r.statements@) == stmts_model(self.statements@),
    {
        Program { version: self.version.clone(), statements: clone_stmts(&self.statements) }
    }
}

// ── Source spellings ────────────────────────────────────────

pub open spec fn classical_type_text(t: ClassicalType) -> Seq<char> {
    match t {
        ClassicalType::Int => "int"@,
        ClassicalType::UInt => "uint"@,
        ClassicalType::Float => "float"@,
        ClassicalType::Angle => "angle"@,
        ClassicalType::Bool => "bool"@,
    }
}

impl ClassicalType {
    /// The keyword that spells this type.
    pub fn text(&self) -> (r: &'static str)
        ensures
            r@ == classical_type_text(*self),
    {
        match self {
            ClassicalType::Int => "int",
            ClassicalType::UInt => "uint",
            ClassicalType::Float => "float",
            ClassicalType::Angle => "angle",
            ClassicalType::Bool => "bool",
        }
    }
}

pub open spec fn qualifier_text(q: ClassicalQualifier) -> Seq<char> {
    match q {
        ClassicalQualifier::Const => "const"@,
        ClassicalQualifier::Input => "input"@,
        ClassicalQualifier::Output => "output"@,
    }
}

impl ClassicalQualifier {
    /// The keyword that spells this qualifier.
    pub fn text(&self) -> (r: &'static str)
        ensures
            r@ == qualifier_text(*self),
    {
        match self {
            ClassicalQualifier::Const => "const",
            ClassicalQualifier::Input => "input",
            ClassicalQualifier::Output => "output",
        }
    }
}

pub open spec fn assign_op_text(op: AssignOp) -> Seq<char> {
    match op {
        AssignOp::Assign => "="@,
        AssignOp::AddAssign => "+="@,
        AssignOp::SubAssign => "-="@,
    }
}

impl AssignOp {
    /// The operator that spells this assignment.
    pub fn text(&self) -> (r: &'static str)
        ensures
            r@ == assign_op_text(*self),
    {
        match self {
            AssignOp::Assign => "=",
            AssignOp::AddAssign => "+=",
            AssignOp::SubAssign => "-=",
        }
    }
}

pub open spec fn bin_op_text(op: BinOp) -> Seq<char> {
    match op {
        BinOp::Add => "+"@,
        BinOp::Sub => "-"@,
        BinOp::Mul => "*"@,
        BinOp::Div => "/"@,
        BinOp::Pow => "**"@,
    }
}

impl BinOp {
    /// The operator that spells this arithmetic operation.
    pub fn text(&self) -> (r: &'static str)
        ensures
            r@ == bin_op_text(*self),
    {
        match self {
            BinOp::Add => "+",
            BinOp::Sub => "-",
            BinOp::Mul => "*",
            BinOp::Div => "/",
            BinOp::Pow => "**",
        }
    }
}

pub open spec fn compare_op_text(op: CompareOp) -> Seq<char> {
    match op {
        CompareOp::Eq => "=="@,
        CompareOp::Ne => "!="@,
        CompareOp::Lt => "<"@,
        CompareOp::Le => "<="@,
        CompareOp::Gt => ">"@,
        CompareOp::Ge => ">="@,
    }
}

impl CompareOp {
    /// The operator that spells this comparison.
    pub fn text(&self) -> (r: &'static str)
        ensures
            r@ == compare_op_text(*self),
    {
        match self {
            CompareOp::Eq => "==",
            CompareOp::Ne => "!=",
            CompareOp::Lt => "<",
            CompareOp::Le => "<=",
            CompareOp::Gt => ">",
            CompareOp::Ge => ">=",
        }
    }
}

pub open spec fn const_kind_text(k: ConstKind) -> Seq<char> {
    match k {
        ConstKind::Pi => "pi"@,
        ConstKind::Tau => "tau"@,
        ConstKind::Euler => "euler"@,
    }
}

impl ConstKind {
    /// The name that spells this constant.
    pub fn text(&self) -> (r: &'static str)
        ensures
            r@ == const_kind_text(*self),
    {
        match self {
            ConstKind::Pi => "pi",
            ConstKind::Tau => "tau",
            ConstKind::Euler => "euler",
        }
    }
}

} // verus!
